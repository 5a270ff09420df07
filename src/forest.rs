//! A trie keyed by label sequences, held as an arena of nodes.
//!
//! Node 0 is the root and stands for the empty sequence; every other node
//! has a label and a parent that comes before it. Each node holds a sequence
//! of values, empty where nothing was stored at that exact path.

use crate::path::Label;
use vstd::prelude::*;

verus! {

/// A trie of label sequences, each node holding a sequence of values.
#[derive(Debug)]
pub struct Forest<T> {
    labels: Vec<Label>,
    parents: Vec<usize>,
    values: Vec<Vec<T>>,
}

/// Whether `q` is one of the prefixes of `p` (`p` itself included).
pub open spec fn is_prefix(q: Seq<Seq<char>>, p: Seq<Seq<char>>) -> bool {
    q.len() <= p.len() && q == p.take(q.len() as int)
}

impl<T> Forest<T> {
    /// The arena is consistent: one label, parent and value slot per node,
    /// and every parent comes before its child.
    pub closed spec fn wf(&self) -> bool {
        &&& self.labels.len() >= 1
        &&& self.parents.len() == self.labels.len()
        &&& self.values.len() == self.labels.len()
        &&& forall|i: int| 0 < i < self.parents.len() ==> #[trigger] self.parents[i] < i
    }

    /// The number of nodes.
    pub closed spec fn size(&self) -> nat {
        self.labels.len() as nat
    }

    /// The first node at or after `from` (never the root) that is a child of
    /// `j` with label `l`.
    pub closed spec fn find_child(&self, j: int, l: Seq<char>, from: int) -> Option<int>
        decreases self.size() - from,
    {
        if from < 1 || from >= self.labels.len() {
            None
        } else if self.parents[from] == j && self.labels[from]@ == l {
            Some(from)
        } else {
            self.find_child(j, l, from + 1)
        }
    }

    /// The node reached from node `at` by following the labels of `p`.
    pub closed spec fn walk(&self, at: int, p: Seq<Seq<char>>) -> Option<int>
        decreases p.len(),
    {
        if p.len() == 0 {
            Some(at)
        } else {
            match self.walk(at, p.drop_last()) {
                Some(j) => self.find_child(j, p.last(), 1),
                None => None,
            }
        }
    }

    /// The values held by node `i`.
    pub closed spec fn entries(&self, i: int) -> Seq<T> {
        self.values[i]@
    }

    /// The labels from the root down to node `i`.
    pub closed spec fn path_of(&self, i: int) -> Seq<Seq<char>>
        decreases i,
    {
        if i <= 0 || i >= self.parents.len() || self.parents[i] >= i {
            Seq::empty()
        } else {
            self.path_of(self.parents[i] as int).push(self.labels[i]@)
        }
    }

    /// Whether a node stands at `p`, relative to node `at`.
    pub open spec fn contains_at(&self, at: int, p: Seq<Seq<char>>) -> bool {
        self.walk(at, p) is Some
    }

    /// The values stored at `p` relative to node `at`; empty where there is no node.
    pub open spec fn lookup_at(&self, at: int, p: Seq<Seq<char>>) -> Seq<T> {
        match self.walk(at, p) {
            Some(i) => self.entries(i),
            None => Seq::empty(),
        }
    }

    /// Whether a node stands at `p`.
    pub open spec fn contains(&self, p: Seq<Seq<char>>) -> bool {
        self.contains_at(0, p)
    }

    /// The values stored at exactly `p`.
    pub open spec fn lookup(&self, p: Seq<Seq<char>>) -> Seq<T> {
        self.lookup_at(0, p)
    }

    proof fn lemma_find_child_bounds(&self, j: int, l: Seq<char>, from: int)
        ensures
            self.find_child(j, l, from) matches Some(k) ==> 1 <= k < self.labels.len()
                && self.parents[k] == j && self.labels[k]@ == l,
        decreases self.size() - from,
    {
        if from >= 1 && from < self.labels.len() && !(self.parents[from] == j
            && self.labels[from]@ == l) {
            self.lemma_find_child_bounds(j, l, from + 1);
        }
    }

    proof fn lemma_walk_bounds(&self, at: int, p: Seq<Seq<char>>)
        requires
            self.wf(),
            0 <= at < self.size(),
        ensures
            self.walk(at, p) matches Some(i) ==> 0 <= i < self.size(),
        decreases p.len(),
    {
        if p.len() > 0 {
            self.lemma_walk_bounds(at, p.drop_last());
            if let Some(j) = self.walk(at, p.drop_last()) {
                self.lemma_find_child_bounds(j, p.last(), 1);
            }
        }
    }

    /// A node reached from the root is reached only along its own path.
    proof fn lemma_walk_path(&self, p: Seq<Seq<char>>)
        requires
            self.wf(),
        ensures
            self.walk(0, p) matches Some(i) ==> self.path_of(i) == p,
        decreases p.len(),
    {
        if p.len() > 0 {
            self.lemma_walk_path(p.drop_last());
            if let Some(j) = self.walk(0, p.drop_last()) {
                self.lemma_find_child_bounds(j, p.last(), 1);
                if let Some(k) = self.walk(0, p) {
                    assert(self.parents[k] < k);
                    assert(p =~= p.drop_last().push(p.last()));
                }
            }
        }
    }

    /// Two paths from the root that reach the same node are equal.
    proof fn lemma_walk_injective(&self, p: Seq<Seq<char>>, q: Seq<Seq<char>>)
        requires
            self.wf(),
            self.walk(0, p) is Some,
            self.walk(0, p) == self.walk(0, q),
        ensures
            p == q,
    {
        self.lemma_walk_path(p);
        self.lemma_walk_path(q);
    }

    /// A forest with the root alone, holding nothing.
    pub fn new() -> (r: Forest<T>)
        ensures
            r.wf(),
            r.size() == 1,
            forall|p: Seq<Seq<char>>| #[trigger] r.contains(p) <==> p.len() == 0,
            forall|p: Seq<Seq<char>>| #[trigger] r.lookup(p) == Seq::<T>::empty(),
            r.leaf_count() == 0,
    {
        let mut labels: Vec<Label> = Vec::new();
        labels.push(Label::root());
        let mut parents: Vec<usize> = Vec::new();
        parents.push(0);
        let mut values: Vec<Vec<T>> = Vec::new();
        values.push(Vec::new());
        let r = Forest { labels, parents, values };
        assert(r.count_upto(1) == r.count_upto(0) + r.values@[0]@.len());
        assert forall|p: Seq<Seq<char>>| #[trigger] r.contains(p) <==> p.len() == 0 by {
            r.lemma_root_only(p);
        }
        assert forall|p: Seq<Seq<char>>| #[trigger] r.lookup(p) == Seq::<T>::empty() by {
            r.lemma_root_only(p);
            if p.len() == 0 {
                assert(r.entries(0) =~= Seq::<T>::empty());
            }
        }
        r
    }

    proof fn lemma_root_only(&self, p: Seq<Seq<char>>)
        requires
            self.labels.len() == 1,
        ensures
            self.walk(0, p) == if p.len() == 0 {
                Some(0int)
            } else {
                None::<int>
            },
        decreases p.len(),
    {
        if p.len() > 0 {
            self.lemma_root_only(p.drop_last());
        }
    }

    /// The child of node `j` with label `l`, if there is one.
    fn child(&self, j: usize, l: &Label) -> (r: Option<usize>)
        requires
            self.wf(),
        ensures
            r matches Some(k) ==> self.find_child(j as int, l@, 1) == Some(k as int),
            r is None ==> self.find_child(j as int, l@, 1) is None,
    {
        let n = self.labels.len();
        let mut k: usize = 1;
        while k < n
            invariant
                self.wf(),
                n == self.labels.len(),
                1 <= k <= n,
                self.find_child(j as int, l@, 1) == self.find_child(j as int, l@, k as int),
            decreases n - k,
        {
            if self.parents[k] == j && self.labels[k] == *l {
                return Some(k);
            }
            k = k + 1;
        }
        None
    }

    /// The node reached from node `at` along `labels`, if any.
    pub fn find_node(&self, at: usize, labels: &[Label]) -> (r: Option<usize>)
        requires
            self.wf(),
            at < self.size(),
        ensures
            r matches Some(i) ==> self.walk(at as int, labels@.map_values(|l: Label| l@)) == Some(
                i as int,
            ) && i < self.size(),
            r is None ==> self.walk(at as int, labels@.map_values(|l: Label| l@)) is None,
    {
        let ghost p = labels@.map_values(|l: Label| l@);
        let mut cur: usize = at;
        let mut k: usize = 0;
        while k < labels.len()
            invariant
                self.wf(),
                at < self.size(),
                p == labels@.map_values(|l: Label| l@),
                k <= labels@.len(),
                cur < self.size(),
                self.walk(at as int, p.take(k as int)) == Some(cur as int),
            decreases labels@.len() - k,
        {
            assert(p.take(k + 1).drop_last() =~= p.take(k as int));
            match self.child(cur, &labels[k]) {
                Some(c) => {
                    proof {
                        self.lemma_find_child_bounds(cur as int, labels@[k as int]@, 1);
                    }
                    cur = c;
                },
                None => {
                    proof {
                        self.lemma_walk_none_extends(at as int, p.take(k + 1), p);
                    }
                    return None;
                },
            }
            k = k + 1;
        }
        assert(p.take(k as int) =~= p);
        Some(cur)
    }

    /// Once a walk fails, walking further fails too.
    proof fn lemma_walk_none_extends(&self, at: int, q: Seq<Seq<char>>, p: Seq<Seq<char>>)
        requires
            self.walk(at, q) is None,
            q.len() <= p.len(),
            q == p.take(q.len() as int),
        ensures
            self.walk(at, p) is None,
        decreases p.len() - q.len(),
    {
        if q.len() < p.len() {
            let q2 = p.take((q.len() + 1) as int);
            assert(q2.drop_last() =~= q);
            assert(self.walk(at, q2) is None);
            assert(q2 =~= p.take(q2.len() as int));
            self.lemma_walk_none_extends(at, q2, p);
        } else {
            assert(q =~= p);
        }
    }

    /// The values stored at exactly `path`, if there are any.
    pub fn find(&self, path: &[Label]) -> (r: Option<&Vec<T>>)
        requires
            self.wf(),
        ensures
            r is Some <==> self.lookup(path@.map_values(|l: Label| l@)).len() > 0,
            r matches Some(v) ==> v@ == self.lookup(path@.map_values(|l: Label| l@)),
    {
        match self.find_node(0, path) {
            Some(i) => {
                if self.values[i].len() > 0 {
                    Some(&self.values[i])
                } else {
                    None
                }
            },
            None => None,
        }
    }

    proof fn lemma_find_child_grow(&self, g: &Self, j: int, l: Seq<char>, from: int)
        requires
            g.labels@.len() == self.labels@.len() + 1,
            g.parents@.len() == self.parents@.len() + 1,
            self.parents@.len() == self.labels@.len(),
            g.labels@ == self.labels@.push(g.labels@.last()),
            g.parents@ == self.parents@.push(g.parents@.last()),
            from >= 1,
        ensures
            self.find_child(j, l, from) is Some ==> g.find_child(j, l, from) == self.find_child(
                j,
                l,
                from,
            ),
            self.find_child(j, l, from) is None ==> g.find_child(j, l, from) == if from
                <= self.labels.len() && g.parents@.last() == j && g.labels@.last()@ == l {
                Some(self.labels.len() as int)
            } else {
                None::<int>
            },
        decreases g.size() - from,
    {
        if from < g.labels.len() {
            if from < self.labels.len() {
                assert(g.parents@[from] == self.parents@.push(g.parents@.last())[from]);
                assert(g.labels@[from] == self.labels@.push(g.labels@.last())[from]);
            }
            self.lemma_find_child_grow(g, j, l, from + 1);
        }
    }

    proof fn lemma_walk_grow(&self, g: &Self, q: Seq<Seq<char>>)
        requires
            self.wf(),
            g.wf(),
            g.labels@.len() == self.labels@.len() + 1,
            g.labels@ == self.labels@.push(g.labels@.last()),
            g.parents@ == self.parents@.push(g.parents@.last()),
        ensures
            self.walk(0, q) is Some ==> g.walk(0, q) == self.walk(0, q),
            self.walk(0, q) is None ==> (g.walk(0, q) is None || (g.walk(0, q) == Some(
                self.labels.len() as int,
            ) && q.len() > 0 && self.walk(0, q.drop_last()) == Some(g.parents@.last() as int)
                && q.last() == g.labels@.last()@)),
        decreases q.len(),
    {
        if q.len() > 0 {
            self.lemma_walk_grow(g, q.drop_last());
            match self.walk(0, q.drop_last()) {
                Some(j) => {
                    self.lemma_find_child_grow(g, j, q.last(), 1);
                },
                None => {
                    match g.walk(0, q.drop_last()) {
                        Some(j) => {
                            // the new node has no children in `g`
                            g.lemma_find_child_none_of_last(j, q.last(), 1);
                        },
                        None => {},
                    }
                },
            }
        }
    }

    proof fn lemma_find_child_none_of_last(&self, j: int, l: Seq<char>, from: int)
        requires
            self.wf(),
            j == self.labels.len() - 1,
        ensures
            self.find_child(j, l, from) is None,
        decreases self.size() - from,
    {
        if from >= 1 && from < self.labels.len() {
            assert(self.parents[from] < from);
            self.lemma_find_child_none_of_last(j, l, from + 1);
        }
    }

    /// Creates the nodes along `path` that are missing and returns the node
    /// at `path`. What is stored does not change.
    pub fn create(&mut self, path: &[Label]) -> (r: usize)
        requires
            old(self).wf(),
        ensures
            final(self).wf(),
            r < final(self).size(),
            final(self).walk(0, path@.map_values(|l: Label| l@)) == Some(r as int),
            forall|q: Seq<Seq<char>>|
                #[trigger] final(self).contains(q) <==> old(self).contains(q) || is_prefix(
                    q,
                    path@.map_values(|l: Label| l@),
                ),
            forall|q: Seq<Seq<char>>| #[trigger] final(self).lookup(q) == old(self).lookup(q),
            forall|i: int|
                0 <= i < old(self).size() ==> #[trigger] final(self).entries(i) == old(self).entries(
                    i,
                ),
            final(self).leaf_count() == old(self).leaf_count(),
    {
        let ghost p = path@.map_values(|l: Label| l@);
        let mut cur: usize = 0;
        let mut k: usize = 0;
        while k < path.len()
            invariant
                self.wf(),
                p == path@.map_values(|l: Label| l@),
                k <= path@.len(),
                cur < self.size(),
                old(self).size() <= self.size(),
                self.walk(0, p.take(k as int)) == Some(cur as int),
                forall|q: Seq<Seq<char>>|
                    #[trigger] self.contains(q) <==> old(self).contains(q) || is_prefix(
                        q,
                        p.take(k as int),
                    ),
                forall|q: Seq<Seq<char>>| #[trigger] self.lookup(q) == old(self).lookup(q),
                forall|i: int|
                    0 <= i < old(self).size() ==> #[trigger] self.entries(i) == old(self).entries(
                        i,
                    ),
                forall|i: int| old(self).size() <= i < self.size() ==> #[trigger] self.entries(i).len() == 0,
                self.leaf_count() == old(self).leaf_count(),
            decreases path@.len() - k,
        {
            assert(p.take(k + 1).drop_last() =~= p.take(k as int));
            match self.child(cur, &path[k]) {
                Some(c) => {
                    proof {
                        self.lemma_find_child_bounds(cur as int, path@[k as int]@, 1);
                        self.lemma_prefix_step(p, k as int);
                        assert(p.take(k + 1).last() == path@[k as int]@);
                        assert forall|q: Seq<Seq<char>>| #[trigger] self.contains(q) <==> old(self).contains(q)
                            || is_prefix(q, p.take(k + 1)) by {
                            if q == p.take(k + 1) {
                                assert(self.walk(0, q) == Some(c as int));
                            }
                        }
                    }
                    cur = c;
                },
                None => {
                    let ghost before = *self;
                    let n = self.labels.len();
                    let l = path[k].clone();
                    self.labels.push(l);
                    self.parents.push(cur);
                    self.values.push(Vec::new());
                    proof {
                        assert(self.labels@ == before.labels@.push(self.labels@.last()));
                        assert(self.parents@ == before.parents@.push(self.parents@.last()));
                        assert forall|q: Seq<Seq<char>>| #[trigger] self.walk(0, q) == before.walk(0, q)
                            || (self.walk(0, q) == Some(n as int) && q == p.take(k + 1)) by {
                            before.lemma_walk_grow(self, q);
                            if before.walk(0, q) is None && self.walk(0, q) is Some {
                                before.lemma_walk_injective(q.drop_last(), p.take(k as int));
                                assert(q =~= p.take(k + 1));
                            }
                        }
                        assert(p.take(k + 1).last() == l@);
                        assert(before.find_child(cur as int, l@, 1) is None);
                        before.lemma_find_child_grow(self, cur as int, l@, 1);
                        before.lemma_walk_grow(self, p.take(k as int));
                        assert(p.take(k + 1).drop_last() =~= p.take(k as int));
                        assert(self.walk(0, p.take(k + 1)) == Some(n as int));
                        self.lemma_prefix_step(p, k as int);
                        assert forall|q: Seq<Seq<char>>| #[trigger] self.lookup(q) == old(self).lookup(q) by {
                            assert(before.lookup(q) == old(self).lookup(q));
                            before.lemma_walk_grow(self, q);
                            before.lemma_walk_bounds(0, q);
                            if self.walk(0, q) == Some(n as int) {
                                assert(self.entries(n as int) =~= Seq::<T>::empty());
                            } else if let Some(j) = before.walk(0, q) {
                                assert(self.values@[j] == before.values@[j]);
                            }
                        }
                        assert forall|q: Seq<Seq<char>>| #[trigger] self.contains(q) <==> old(self).contains(q)
                            || is_prefix(q, p.take(k + 1)) by {
                            assert(before.contains(q) <==> old(self).contains(q) || is_prefix(q, p.take(k as int)));
                            before.lemma_walk_grow(self, q);
                        }
                        assert forall|i: int| 0 <= i < old(self).size() implies #[trigger] self.entries(i)
                            == old(self).entries(i) by {
                            assert(self.entries(i) == before.entries(i));
                        }
                        assert forall|i: int| old(self).size() <= i < self.size() implies #[trigger] self.entries(i).len() == 0 by {
                            if i < n {
                                assert(self.entries(i) == before.entries(i));
                            }
                        }
                        assert forall|i: int| 0 <= i < n implies #[trigger] self.values@[i]@.len()
                            == before.values@[i]@.len() by {
                            assert(self.values@[i] == before.values@[i]);
                        }
                        lemma_count_same(&before, self, n as int);
                        assert(self.count_upto(n + 1) == self.count_upto(n as int) + self.values@[n as int]@.len());
                    }
                    cur = n;
                },
            }
            k = k + 1;
        }
        assert(p.take(k as int) =~= p);
        cur
    }

    /// The prefixes of `p.take(k + 1)` are those of `p.take(k)` and itself.
    proof fn lemma_prefix_step(&self, p: Seq<Seq<char>>, k: int)
        requires
            0 <= k < p.len(),
        ensures
            forall|q: Seq<Seq<char>>|
                #[trigger] is_prefix(q, p.take(k + 1)) <==> is_prefix(q, p.take(k)) || q == p.take(
                    k + 1,
                ),
    {
        assert forall|q: Seq<Seq<char>>| #[trigger] is_prefix(q, p.take(k + 1)) <==> is_prefix(
            q,
            p.take(k),
        ) || q == p.take(k + 1) by {
            if q.len() <= k {
                assert(p.take(k + 1).take(q.len() as int) =~= p.take(k).take(q.len() as int));
                assert(q != p.take(k + 1));
            } else if q.len() == k + 1 {
                assert(p.take(k + 1).take(q.len() as int) =~= p.take(k + 1));
                assert(!is_prefix(q, p.take(k)));
            } else {
                assert(q != p.take(k + 1));
            }
        }
    }

    /// Appends `item` to the values stored at `path`, creating the nodes
    /// along it that are missing.
    pub fn insert(&mut self, path: &[Label], item: T)
        requires
            old(self).wf(),
        ensures
            final(self).wf(),
            forall|q: Seq<Seq<char>>|
                #[trigger] final(self).contains(q) <==> old(self).contains(q) || is_prefix(
                    q,
                    path@.map_values(|l: Label| l@),
                ),
            forall|q: Seq<Seq<char>>|
                #[trigger] final(self).lookup(q) == if q == path@.map_values(|l: Label| l@) {
                    old(self).lookup(q).push(item)
                } else {
                    old(self).lookup(q)
                },
            final(self).leaf_count() == old(self).leaf_count() + 1,
    {
        let ghost p = path@.map_values(|l: Label| l@);
        let i = self.create(path);
        let ghost mid = *self;
        self.values[i].push(item);
        proof {
            assert(self.labels@ == mid.labels@);
            assert(self.parents@ == mid.parents@);
            assert forall|q: Seq<Seq<char>>| #[trigger] self.walk(0, q) == mid.walk(0, q) by {
                self.lemma_walk_same_shape(&mid, 0, q);
            }
            assert forall|q: Seq<Seq<char>>| #[trigger] self.lookup(q) == if q == p {
                old(self).lookup(q).push(item)
            } else {
                old(self).lookup(q)
            } by {
                assert(mid.lookup(q) == old(self).lookup(q));
                if let Some(j) = mid.walk(0, q) {
                    if j == i {
                        mid.lemma_walk_injective(p, q);
                    } else {
                        mid.lemma_walk_bounds(0, q);
                        assert(self.values@[j] == mid.values@[j]);
                    }
                }
            }
            assert forall|q: Seq<Seq<char>>| #[trigger] self.contains(q) <==> mid.contains(q) by {
            }
            assert forall|k: int| 0 <= k < mid.size() && k != i implies #[trigger] self.values@[k]@.len()
                == mid.values@[k]@.len() by {
                assert(self.values@[k] == mid.values@[k]);
            }
            lemma_count_bump(&mid, self, i as int, mid.size() as int);
        }
    }

    /// Forests with the same labels and parents walk alike.
    pub proof fn lemma_walk_same_shape(&self, other: &Self, at: int, q: Seq<Seq<char>>)
        requires
            self.same_shape(other),
        ensures
            self.walk(at, q) == other.walk(at, q),
        decreases q.len(),
    {
        if q.len() > 0 {
            self.lemma_walk_same_shape(other, at, q.drop_last());
            if let Some(j) = self.walk(at, q.drop_last()) {
                self.lemma_find_child_same_shape(other, j, q.last(), 1);
            }
        }
    }

    /// Both forests have the same labels, by text, and the same parents.
    pub closed spec fn same_shape(&self, other: &Self) -> bool {
        &&& self.labels@.len() == other.labels@.len()
        &&& self.parents@ == other.parents@
        &&& forall|k: int| 0 <= k < self.labels@.len() ==> #[trigger] self.labels@[k]@ == other.labels@[k]@
    }

    proof fn lemma_find_child_same_shape(&self, other: &Self, j: int, l: Seq<char>, from: int)
        requires
            self.same_shape(other),
        ensures
            self.find_child(j, l, from) == other.find_child(j, l, from),
        decreases self.size() - from,
    {
        if from >= 1 && from < self.labels.len() {
            self.lemma_find_child_same_shape(other, j, l, from + 1);
        }
    }

    /// Walking no label stays where it is.
    pub proof fn lemma_walk_empty(&self, at: int)
        ensures
            self.walk(at, Seq::empty()) == Some(at),
    {
    }

    /// A consistent forest has its root.
    pub proof fn lemma_has_root(&self)
        requires
            self.wf(),
        ensures
            self.size() >= 1,
    {
    }

    /// Walking from any node stays among the nodes.
    pub proof fn lemma_walk_bounds_at(&self, at: int, p: Seq<Seq<char>>)
        requires
            self.wf(),
            0 <= at < self.size(),
        ensures
            self.walk(at, p) matches Some(i) ==> 0 <= i < self.size(),
    {
        self.lemma_walk_bounds(at, p);
    }

    /// The children listed for `j` are nodes whose parent is `j`.
    pub proof fn lemma_children_member(&self, j: int, c: int)
        requires
            self.wf(),
            0 <= c < self.children(j).len(),
        ensures
            1 <= self.children(j)[c] < self.size(),
            self.parent_of(self.children(j)[c]) == j,
    {
        self.lemma_children_upto(j, self.size() as int);
    }

    proof fn lemma_children_upto(&self, j: int, upto: int)
        requires
            self.wf(),
            upto <= self.size(),
        ensures
            forall|c: int|
                0 <= c < self.children_upto(j, upto).len() ==> 1 <= #[trigger] self.children_upto(
                    j,
                    upto,
                )[c] < upto && self.parents@[self.children_upto(j, upto)[c]] == j,
        decreases upto,
    {
        if upto > 1 {
            self.lemma_children_upto(j, upto - 1);
            let prev = self.children_upto(j, upto - 1);
            let cur = self.children_upto(j, upto);
            assert forall|c: int| 0 <= c < cur.len() implies 1 <= #[trigger] cur[c] < upto
                && self.parents@[cur[c]] == j by {
                if c < prev.len() {
                    assert(cur[c] == prev[c]);
                }
            }
        }
    }

    /// The node a label leads to from `at` is one of the children of `at`.
    pub proof fn lemma_walk_one_is_child(&self, at: int, l: Seq<char>)
        requires
            self.wf(),
            self.walk(at, seq![l]) is Some,
        ensures
            exists|c: int|
                0 <= c < self.children(at).len() && #[trigger] self.children(at)[c] == self.walk(at, seq![l])->Some_0
                    && self.label_of(self.children(at)[c]) == l,
    {
        assert(seq![l].drop_last() =~= Seq::<Seq<char>>::empty());
        assert(seq![l].last() == l);
        assert(self.walk(at, Seq::<Seq<char>>::empty()) == Some(at));
        assert(self.walk(at, seq![l]) == self.find_child(at, l, 1));
        let k = self.walk(at, seq![l])->Some_0;
        self.lemma_find_child_bounds(at, l, 1);
        self.lemma_child_listed(at, k, self.size() as int);
        let c = choose|c: int|
            0 <= c < self.children_upto(at, self.size() as int).len() && #[trigger] self.children_upto(
                at,
                self.size() as int,
            )[c] == k;
        assert(self.children(at)[c] == k);
        assert(self.label_of(self.children(at)[c]) == l);
    }

    proof fn lemma_child_listed(&self, j: int, k: int, upto: int)
        requires
            self.wf(),
            1 <= k < upto <= self.size(),
            self.parents@[k] == j,
        ensures
            exists|c: int| 0 <= c < self.children_upto(j, upto).len() && #[trigger] self.children_upto(j, upto)[c] == k,
        decreases upto,
    {
        let prev = self.children_upto(j, upto - 1);
        let cur = self.children_upto(j, upto);
        if k < upto - 1 {
            self.lemma_child_listed(j, k, upto - 1);
            let c = choose|c: int| 0 <= c < prev.len() && #[trigger] prev[c] == k;
            if self.parents@[upto - 1] == j {
                assert(cur == prev.push(upto - 1));
            } else {
                assert(cur == prev);
            }
            assert(cur[c] == k);
        } else {
            assert(cur == prev.push(upto - 1));
            assert(cur[prev.len() as int] == k);
        }
    }

    /// A child of `at` is reached from `at` by its label.
    pub proof fn lemma_child_reachable(&self, at: int, c: int, l: Seq<char>)
        requires
            self.wf(),
            1 <= c < self.size(),
            self.parent_of(c) == at,
            self.label_of(c) == l,
        ensures
            self.walk(at, seq![l]) is Some,
    {
        assert(seq![l].drop_last() =~= Seq::<Seq<char>>::empty());
        assert(seq![l].last() == l);
        self.lemma_find_child_reaches(at, l, 1, c);
        assert(self.walk(at, Seq::<Seq<char>>::empty()) == Some(at));
    }

    proof fn lemma_find_child_reaches(&self, j: int, l: Seq<char>, from: int, c: int)
        requires
            self.wf(),
            1 <= from <= c < self.size(),
            self.parents@[c] == j,
            self.labels@[c]@ == l,
        ensures
            self.find_child(j, l, from) is Some,
        decreases c - from,
    {
        if from < c && !(self.parents[from] == j && self.labels[from]@ == l) {
            self.lemma_find_child_reaches(j, l, from + 1, c);
        }
    }

    /// A copy of the forest, each value cloned.
    pub fn copy(&self) -> (r: Forest<T>)
        where
            T: Clone,
        requires
            self.wf(),
        ensures
            r.wf(),
            r.same_shape(self),
            r.size() == self.size(),
            forall|i: int|
                0 <= i < self.size() ==> (#[trigger] r.entries(i)).len() == self.entries(i).len(),
            forall|i: int, k: int|
                0 <= i < self.size() && 0 <= k < self.entries(i).len() ==> cloned(
                    self.entries(i)[k],
                    #[trigger] r.entries(i)[k],
                ),
    {
        let labels = self.labels.clone();
        proof {
            assert forall|k: int| 0 <= k < labels@.len() implies #[trigger] labels@[k]@
                == self.labels@[k]@ by {
                assert(cloned(self.labels@[k], labels@[k]));
            }
        }
        let parents = self.parents.clone();
        assert(parents@ =~= self.parents@);
        let mut values: Vec<Vec<T>> = Vec::new();
        let mut i: usize = 0;
        while i < self.values.len()
            invariant
                self.wf(),
                i <= self.values@.len(),
                values@.len() == i,
                forall|j: int|
                    0 <= j < i ==> (#[trigger] values@[j])@.len() == self.values@[j]@.len(),
                forall|j: int, k: int|
                    0 <= j < i && 0 <= k < self.values@[j]@.len() ==> cloned(
                        self.values@[j]@[k],
                        #[trigger] values@[j]@[k],
                    ),
            decreases self.values@.len() - i,
        {
            let v = self.values[i].clone();
            values.push(v);
            i = i + 1;
        }
        Forest { labels, parents, values }
    }

    /// The number of values stored in nodes `0..upto`.
    pub closed spec fn count_upto(&self, upto: int) -> nat
        decreases upto,
    {
        if upto <= 0 {
            0
        } else {
            self.count_upto(upto - 1) + self.values@[upto - 1]@.len()
        }
    }

    /// The number of values stored in the whole forest.
    pub open spec fn leaf_count(&self) -> nat {
        self.count_upto(self.size() as int)
    }

    /// The parent of node `i`.
    pub closed spec fn parent_of(&self, i: int) -> int {
        self.parents@[i] as int
    }

    /// The label of node `i`.
    pub closed spec fn label_of(&self, i: int) -> Seq<char> {
        self.labels@[i]@
    }

    /// The nodes among `0..upto` that are children of `j`, in order.
    pub closed spec fn children_upto(&self, j: int, upto: int) -> Seq<int>
        decreases upto,
    {
        if upto <= 1 {
            Seq::empty()
        } else if self.parents@[upto - 1] == j {
            self.children_upto(j, upto - 1).push(upto - 1)
        } else {
            self.children_upto(j, upto - 1)
        }
    }

    /// The children of node `j`, in order.
    pub open spec fn children(&self, j: int) -> Seq<int> {
        self.children_upto(j, self.size() as int)
    }

    /// The values stored at node `i`.
    pub fn values_at(&self, i: usize) -> (r: &Vec<T>)
        requires
            self.wf(),
            i < self.size(),
        ensures
            r@ == self.entries(i as int),
    {
        &self.values[i]
    }

    /// The label of node `i`.
    pub fn label_at(&self, i: usize) -> (r: &Label)
        requires
            self.wf(),
            i < self.size(),
        ensures
            r@ == self.label_of(i as int),
    {
        &self.labels[i]
    }

    /// The children of node `j`, in order of creation.
    pub fn child_nodes(&self, j: usize) -> (r: Vec<usize>)
        requires
            self.wf(),
        ensures
            r@.map_values(|k: usize| k as int) == self.children(j as int),
    {
        let n = self.labels.len();
        let mut out: Vec<usize> = Vec::new();
        let mut k: usize = 1;
        assert(out@.map_values(|k: usize| k as int) =~= self.children_upto(j as int, 1));
        while k < n
            invariant
                self.wf(),
                n == self.size(),
                1 <= k <= n,
                out@.map_values(|k: usize| k as int) == self.children_upto(j as int, k as int),
            decreases n - k,
        {
            if self.parents[k] == j {
                out.push(k);
            }
            assert(out@.map_values(|k: usize| k as int) =~= self.children_upto(j as int, k + 1));
            k = k + 1;
        }
        out
    }
}

proof fn lemma_count_same<T>(f: &Forest<T>, g: &Forest<T>, upto: int)
    requires
        upto <= f.values@.len(),
        upto <= g.values@.len(),
        forall|k: int| 0 <= k < upto ==> #[trigger] g.values@[k]@.len() == f.values@[k]@.len(),
    ensures
        g.count_upto(upto) == f.count_upto(upto),
    decreases upto,
{
    if upto > 0 {
        lemma_count_same(f, g, upto - 1);
    }
}

proof fn lemma_count_bump<T>(f: &Forest<T>, g: &Forest<T>, i: int, upto: int)
    requires
        0 <= i < upto,
        upto <= f.values@.len(),
        upto <= g.values@.len(),
        forall|k: int|
            0 <= k < upto && k != i ==> #[trigger] g.values@[k]@.len() == f.values@[k]@.len(),
        g.values@[i]@.len() == f.values@[i]@.len() + 1,
    ensures
        g.count_upto(upto) == f.count_upto(upto) + 1,
    decreases upto,
{
    if upto - 1 == i {
        lemma_count_same(f, g, upto - 1);
    } else {
        lemma_count_bump(f, g, i, upto - 1);
    }
}

/// The child reached by one more label is the child of the node reached first.
pub proof fn lemma_walk_append<T>(f: &Forest<T>, at: int, p: Seq<Seq<char>>, q: Seq<Seq<char>>)
    ensures
        f.walk(at, p + q) == match f.walk(at, p) {
            Some(j) => f.walk(j, q),
            None => None,
        },
    decreases q.len(),
{
    if q.len() == 0 {
        assert(p + q =~= p);
    } else {
        lemma_walk_append(f, at, p, q.drop_last());
        assert((p + q).drop_last() =~= p + q.drop_last());
        assert((p + q).last() == q.last());
        if f.walk(at, p) is None {
            lemma_walk_none_prefix(f, at, p, q);
        }
    }
}

proof fn lemma_walk_none_prefix<T>(f: &Forest<T>, at: int, p: Seq<Seq<char>>, q: Seq<Seq<char>>)
    requires
        f.walk(at, p) is None,
    ensures
        f.walk(at, p + q) is None,
    decreases q.len(),
{
    if q.len() == 0 {
        assert(p + q =~= p);
    } else {
        lemma_walk_none_prefix(f, at, p, q.drop_last());
        assert((p + q).drop_last() =~= p + q.drop_last());
    }
}

} // verus!
