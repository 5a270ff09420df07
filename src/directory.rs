//! Directory trees built from flat listings of files grouped by directory.

use crate::forest::{is_prefix, lemma_walk_append, Forest};
use crate::path::{root_text, Error, Label, Path};
use vstd::prelude::*;

verus! {

/// The content of a file.
#[derive(Debug)]
pub struct File {
    pub contents: Vec<u8>,
    pub size: usize,
}

impl View for File {
    type V = (Seq<u8>, usize);

    open spec fn view(&self) -> (Seq<u8>, usize) {
        (self.contents@, self.size)
    }
}

impl Clone for File {
    fn clone(&self) -> (r: File)
        ensures
            r@ == self@,
    {
        File { contents: self.contents.clone(), size: self.size }
    }
}

impl File {
    /// A file with the given content; its size is the content's length.
    pub fn new(contents: Vec<u8>) -> (r: File)
        ensures
            r.contents@ == contents@,
            r.size == contents@.len(),
    {
        let size = contents.len();
        File { contents, size }
    }
}

/// A named file stored in a directory.
#[derive(Debug)]
pub struct Leaf {
    pub name: Label,
    pub file: File,
}

impl View for Leaf {
    type V = (Seq<char>, (Seq<u8>, usize));

    open spec fn view(&self) -> (Seq<char>, (Seq<u8>, usize)) {
        (self.name@, self.file@)
    }
}

impl Clone for Leaf {
    fn clone(&self) -> (r: Leaf)
        ensures
            r@ == self@,
    {
        Leaf { name: self.name.clone(), file: self.file.clone() }
    }
}

/// An entry of a directory listing.
#[derive(Debug, Clone, PartialEq, Eq, PartialOrd, Ord)]
pub enum SystemType {
    File(Label),
    Directory(Label),
}

/// A directory tree.
#[derive(Debug)]
pub struct Directory {
    tree: Forest<Leaf>,
    at: usize,
}

/// A path taken below the root: a leading root label is dropped.
pub open spec fn relative(p: Seq<Seq<char>>) -> Seq<Seq<char>> {
    if p.len() > 0 && p[0] == root_text() {
        p.skip(1)
    } else {
        p
    }
}

/// The views of a sequence of leaves.
pub open spec fn leaf_views(s: Seq<Leaf>) -> Seq<(Seq<char>, (Seq<u8>, usize))> {
    s.map_values(|l: Leaf| l@)
}

/// The views of a group of named files.
pub open spec fn group_views(g: Seq<(Label, File)>) -> Seq<(Seq<char>, (Seq<u8>, usize))> {
    g.map_values(|e: (Label, File)| (e.0@, e.1@))
}

/// The files that the first `upto` groups place in the directory `q`, in order.
pub open spec fn placed(groups: Seq<(Path, Vec<(Label, File)>)>, q: Seq<Seq<char>>, upto: int) -> Seq<
    (Seq<char>, (Seq<u8>, usize)),
>
    decreases upto,
{
    if upto <= 0 {
        Seq::empty()
    } else {
        placed(groups, q, upto - 1) + if relative(groups[upto - 1].0@) == q {
            group_views(groups[upto - 1].1@)
        } else {
            Seq::empty()
        }
    }
}

/// The number of files in the first `upto` groups.
pub open spec fn total(groups: Seq<(Path, Vec<(Label, File)>)>, upto: int) -> nat
    decreases upto,
{
    if upto <= 0 {
        0
    } else {
        total(groups, upto - 1) + groups[upto - 1].1@.len()
    }
}

/// Some group places its files at or below the directory `q`.
pub open spec fn below_some(groups: Seq<(Path, Vec<(Label, File)>)>, q: Seq<Seq<char>>, upto: int) -> bool {
    exists|i: int| 0 <= i < upto && is_prefix(q, #[trigger] relative(groups[i].0@))
}

/// The index of the first file named `name` in `s`, or its length when there is none.
pub open spec fn first_named(s: Seq<(Seq<char>, (Seq<u8>, usize))>, name: Seq<char>, from: int) -> int
    decreases s.len() - from,
{
    if from < 0 || from >= s.len() {
        s.len() as int
    } else if s[from].0 == name {
        from
    } else {
        first_named(s, name, from + 1)
    }
}

/// The labels of a path below the root.
fn relative_labels(path: &Path) -> (r: &[Label])
    ensures
        r@.map_values(|l: Label| l@) == relative(path@),
{
    let (first, rest) = path.split_first();
    if first.is_root() {
        rest
    } else {
        path.iter()
    }
}

impl Directory {
    /// The directory is a node of a consistent tree.
    pub closed spec fn wf(&self) -> bool {
        &&& self.tree.wf()
        &&& self.at < self.tree.size()
    }

    /// The files held directly in the directory at `q`, below this one.
    pub closed spec fn files(&self, q: Seq<Seq<char>>) -> Seq<(Seq<char>, (Seq<u8>, usize))> {
        self.tree.lookup_at(self.at as int, q).map_values(|l: Leaf| l@)
    }

    /// Whether a directory stands at `q`, below this one.
    pub closed spec fn has_dir(&self, q: Seq<Seq<char>>) -> bool {
        self.tree.contains_at(self.at as int, q)
    }

    /// The number of files in the whole tree this directory belongs to.
    pub closed spec fn leaf_count(&self) -> nat {
        self.tree.leaf_count()
    }

    /// Builds a tree from groups of named files, each group placed in the
    /// directory its path names (a leading root label is dropped). The
    /// directories along each path are created once; files of groups with
    /// the same path are placed one after the other.
    pub fn from_entries(groups: &Vec<(Path, Vec<(Label, File)>)>) -> (r: Directory)
        ensures
            r.wf(),
            forall|q: Seq<Seq<char>>| #[trigger] r.files(q) == placed(groups@, q, groups@.len() as int),
            forall|q: Seq<Seq<char>>|
                #[trigger] r.has_dir(q) <==> q.len() == 0 || below_some(groups@, q, groups@.len() as int),
            r.leaf_count() == total(groups@, groups@.len() as int),
    {
        let ghost gs = groups@;
        let mut tree: Forest<Leaf> = Forest::new();
        let mut i: usize = 0;
        while i < groups.len()
            invariant
                gs == groups@,
                i <= gs.len(),
                tree.wf(),
                forall|q: Seq<Seq<char>>|
                    leaf_views(#[trigger] tree.lookup(q)) == placed(gs, q, i as int),
                forall|q: Seq<Seq<char>>|
                    #[trigger] tree.contains(q) <==> q.len() == 0 || below_some(gs, q, i as int),
                tree.leaf_count() == total(gs, i as int),
            decreases gs.len() - i,
        {
            let group = &groups[i];
            let labels = relative_labels(&group.0);
            let ghost rel = relative(gs[i as int].0@);
            let ghost t0 = tree;
            tree.create(labels);
            proof {
                assert forall|q: Seq<Seq<char>>| #[trigger] tree.contains(q) <==> q.len() == 0
                    || below_some(gs, q, i + 1) by {
                    if below_some(gs, q, i + 1) && !below_some(gs, q, i as int) {
                        assert(is_prefix(q, relative(gs[i as int].0@)));
                    }
                    if is_prefix(q, rel) {
                        assert(is_prefix(q, relative(gs[i as int].0@)));
                    }
                    if below_some(gs, q, i as int) {
                        let j = choose|j: int| 0 <= j < i && is_prefix(q, #[trigger] relative(gs[j].0@));
                        assert(0 <= j < i + 1);
                    }
                }
            }
            let files = &group.1;
            let mut k: usize = 0;
            while k < files.len()
                invariant
                    gs == groups@,
                    i < gs.len(),
                    files@ == gs[i as int].1@,
                    rel == relative(gs[i as int].0@),
                    labels@.map_values(|l: Label| l@) == rel,
                    k <= files@.len(),
                    tree.wf(),
                    forall|q: Seq<Seq<char>>|
                        leaf_views(#[trigger] tree.lookup(q)) == placed(gs, q, i as int)
                            + if q == rel {
                            group_views(files@.take(k as int))
                        } else {
                            Seq::empty()
                        },
                    forall|q: Seq<Seq<char>>|
                        #[trigger] tree.contains(q) <==> q.len() == 0 || below_some(gs, q, i + 1),
                    tree.contains(rel),
                    tree.leaf_count() == total(gs, i as int) + k,
                decreases files@.len() - k,
            {
                let leaf = Leaf { name: files[k].0.clone(), file: files[k].1.clone() };
                let ghost t1 = tree;
                tree.insert(labels, leaf);
                proof {
                    assert forall|q: Seq<Seq<char>>| leaf_views(#[trigger] tree.lookup(q)) == placed(gs, q, i as int) + if q == rel {
                        group_views(files@.take(k + 1))
                    } else {
                        Seq::empty()
                    } by {
                        if q == rel {
                            assert(files@.take(k + 1) =~= files@.take(k as int).push(files@[k as int]));
                            assert(group_views(files@.take(k + 1)) =~= group_views(files@.take(k as int)).push(
                                leaf@,
                            ));
                            assert(t1.lookup(q).push(leaf).map_values(|l: Leaf| l@) =~= t1.lookup(
                                q,
                            ).map_values(|l: Leaf| l@).push(leaf@));
                            assert((placed(gs, q, i as int) + group_views(files@.take(k as int))).push(leaf@)
                                =~= placed(gs, q, i as int) + group_views(files@.take(k + 1)));
                        }
                    }
                    assert forall|q: Seq<Seq<char>>| #[trigger] tree.contains(q) <==> q.len() == 0
                        || below_some(gs, q, i + 1) by {
                        if is_prefix(q, rel) {
                            assert(t1.contains(q) <==> q.len() == 0 || below_some(gs, q, i + 1));
                            assert(is_prefix(q, relative(gs[i as int].0@)));
                        }
                    }
                }
                k = k + 1;
            }
            proof {
                assert(files@.take(files@.len() as int) =~= files@);
                assert forall|q: Seq<Seq<char>>| leaf_views(#[trigger] tree.lookup(q))
                    == placed(gs, q, i + 1) by {
                    if q != rel {
                        assert(placed(gs, q, i as int) + Seq::<(Seq<char>, (Seq<u8>, usize))>::empty()
                            =~= placed(gs, q, i as int));
                    }
                }
            }
            i = i + 1;
        }
        proof {
            tree.lemma_has_root();
        }
        let r = Directory { tree, at: 0 };
        assert forall|q: Seq<Seq<char>>| #[trigger] r.files(q) == placed(gs, q, gs.len() as int) by {
            assert(leaf_views(tree.lookup(q)) == placed(gs, q, i as int));
        }
        assert forall|q: Seq<Seq<char>>| #[trigger] r.has_dir(q) <==> q.len() == 0 || below_some(gs, q, gs.len() as int) by {
            assert(tree.contains(q) <==> q.len() == 0 || below_some(gs, q, i as int));
        }
        r
    }

    /// The file at `path`: the first file with the path's last label in the
    /// directory its other labels name. A leading root label is dropped.
    pub fn find_file(&self, path: &Path) -> (r: Result<File, Error>)
        requires
            self.wf(),
        ensures
            r is Ok <==> relative(path@).len() > 0 && first_named(
                self.files(relative(path@).drop_last()),
                relative(path@).last(),
                0,
            ) < self.files(relative(path@).drop_last()).len(),
            r matches Ok(f) ==> f@ == self.files(relative(path@).drop_last())[first_named(
                self.files(relative(path@).drop_last()),
                relative(path@).last(),
                0,
            )].1,
            r matches Err(e) ==> e matches Error::PathNotFound(p) && p@ == path@,
    {
        let rel = relative_labels(path);
        let ghost q = relative(path@);
        if rel.len() == 0 {
            return Err(Error::PathNotFound(path.clone()));
        }
        let (dir, last) = rel.split_at(rel.len() - 1);
        assert(dir@.map_values(|l: Label| l@) =~= q.drop_last());
        let name = &last[0];
        assert(name@ == q.last());
        let node = match self.tree.find_node(self.at, dir) {
            Some(n) => n,
            None => {
                assert(self.files(q.drop_last()) =~= Seq::<(Seq<char>, (Seq<u8>, usize))>::empty());
                return Err(Error::PathNotFound(path.clone()));
            },
        };
        let leaves = self.tree.values_at(node);
        let ghost s = self.files(q.drop_last());
        assert(s == leaves@.map_values(|l: Leaf| l@));
        let mut k: usize = 0;
        while k < leaves.len()
            invariant
                s == leaves@.map_values(|l: Leaf| l@),
                k <= leaves@.len(),
                q == relative(path@),
                q.len() > 0,
                s == self.files(q.drop_last()),
                first_named(s, q.last(), 0) == first_named(s, q.last(), k as int),
                name@ == q.last(),
            decreases leaves@.len() - k,
        {
            if leaves[k].name == *name {
                assert(s[k as int] == leaves@[k as int]@);
                assert(first_named(s, q.last(), k as int) == k);
                return Ok(leaves[k].file.clone());
            }
            assert(s[k as int] == leaves@[k as int]@);
            k = k + 1;
        }
        Err(Error::PathNotFound(path.clone()))
    }

    /// The directory at `path` below this one. A leading root label is dropped.
    pub fn find_directory(&self, path: &Path) -> (r: Result<Directory, Error>)
        requires
            self.wf(),
        ensures
            r is Ok <==> self.has_dir(relative(path@)),
            r matches Ok(d) ==> d.wf() && (forall|q: Seq<Seq<char>>|
                #[trigger] d.files(q) == self.files(relative(path@) + q)) && (forall|q: Seq<Seq<char>>|
                #[trigger] d.has_dir(q) == self.has_dir(relative(path@) + q)),
            r matches Err(e) ==> e matches Error::PathNotFound(p) && p@ == path@,
    {
        let rel = relative_labels(path);
        let ghost p = relative(path@);
        match self.tree.find_node(self.at, rel) {
            None => Err(Error::PathNotFound(path.clone())),
            Some(n) => {
                let tree = self.tree.copy();
                let d = Directory { tree, at: n };
                proof {
                    assert forall|q: Seq<Seq<char>>| #[trigger] d.files(q) == self.files(p + q) by {
                        lemma_walk_append(&self.tree, self.at as int, p, q);
                        d.tree.lemma_walk_same_shape(&self.tree, n as int, q);
                        self.tree.lemma_walk_bounds_at(n as int, q);
                        if let Some(i) = self.tree.walk(n as int, q) {
                            assert(d.tree.entries(i).map_values(|l: Leaf| l@) =~= self.tree.entries(
                                i,
                            ).map_values(|l: Leaf| l@)) by {
                                assert forall|k: int| 0 <= k < self.tree.entries(i).len() implies
                                    #[trigger] d.tree.entries(i)[k]@ == self.tree.entries(i)[k]@ by {
                                    assert(cloned(self.tree.entries(i)[k], d.tree.entries(i)[k]));
                                }
                            }
                        }
                    }
                    assert forall|q: Seq<Seq<char>>| #[trigger] d.has_dir(q) == self.has_dir(p + q) by {
                        lemma_walk_append(&self.tree, self.at as int, p, q);
                        d.tree.lemma_walk_same_shape(&self.tree, n as int, q);
                    }
                }
                Ok(d)
            },
        }
    }

    /// The entries held directly in this directory: its files, in order,
    /// then its sub-directories, in order of creation.
    pub fn list_directory(&self) -> (r: Vec<SystemType>)
        requires
            self.wf(),
        ensures
            r@.len() >= self.files(Seq::empty()).len(),
            forall|k: int|
                0 <= k < self.files(Seq::empty()).len() ==> ((#[trigger] r@[k]) matches SystemType::File(
                    l,
                ) && l@ == self.files(Seq::empty())[k].0),
            forall|k: int|
                self.files(Seq::empty()).len() <= k < r@.len() ==> ((#[trigger] r@[k]) matches SystemType::Directory(
                    l,
                ) && self.has_dir(seq![l@])),
            forall|l: Seq<char>|
                #[trigger] self.has_dir(seq![l]) ==> exists|k: int|
                    self.files(Seq::empty()).len() <= k < r@.len() && ((#[trigger] r@[k]) matches SystemType::Directory(
                        d,
                    ) && d@ == l),
    {
        let leaves = self.tree.values_at(self.at);
        proof {
            self.tree.lemma_walk_empty(self.at as int);
        }
        let ghost s = self.files(Seq::empty());
        assert(s == leaves@.map_values(|l: Leaf| l@));
        let mut out: Vec<SystemType> = Vec::new();
        let mut k: usize = 0;
        while k < leaves.len()
            invariant
                s == leaves@.map_values(|l: Leaf| l@),
                k <= leaves@.len(),
                out@.len() == k,
                forall|j: int|
                    0 <= j < k ==> ((#[trigger] out@[j]) matches SystemType::File(l) && l@ == s[j].0),
            decreases leaves@.len() - k,
        {
            out.push(SystemType::File(leaves[k].name.clone()));
            k = k + 1;
        }
        let children = self.tree.child_nodes(self.at);
        let mut c: usize = 0;
        while c < children.len()
            invariant
                self.wf(),
                s == self.files(Seq::empty()),
                out@.len() == s.len() + c,
                c <= children@.len(),
                children@.map_values(|k: usize| k as int) == self.tree.children(self.at as int),
                forall|j: int|
                    0 <= j < s.len() ==> ((#[trigger] out@[j]) matches SystemType::File(l) && l@ == s[j].0),
                forall|j: int|
                    s.len() <= j < out@.len() ==> ((#[trigger] out@[j]) matches SystemType::Directory(
                        l,
                    ) && self.has_dir(seq![l@])),
                forall|j: int|
                    0 <= j < c ==> ((#[trigger] out@[s.len() + j]) matches SystemType::Directory(d) && d@
                        == self.tree.label_of(self.tree.children(self.at as int)[j])),
            decreases children@.len() - c,
        {
            let node = children[c];
            proof {
                self.tree.lemma_children_member(self.at as int, c as int);
            }
            let label = self.tree.label_at(node).clone();
            proof {
                self.tree.lemma_child_reachable(self.at as int, node as int, label@);
            }
            out.push(SystemType::Directory(label));
            c = c + 1;
        }
        proof {
            assert forall|l: Seq<char>| #[trigger] self.has_dir(seq![l]) implies exists|k: int|
                s.len() <= k < out@.len() && ((#[trigger] out@[k]) matches SystemType::Directory(d) && d@
                    == l) by {
                self.tree.lemma_walk_one_is_child(self.at as int, l);
                let j = choose|j: int|
                    0 <= j < self.tree.children(self.at as int).len() && #[trigger] self.tree.children(
                        self.at as int,
                    )[j] == self.tree.walk(self.at as int, seq![l])->Some_0 && self.tree.label_of(
                        self.tree.children(self.at as int)[j],
                    ) == l;
                assert(out@[s.len() + j] matches SystemType::Directory(d) && d@ == l);
            }
        }
        out
    }
}

/// Files of different groups, or of one group, never share both their
/// directory and their name.
pub open spec fn distinct_paths(groups: Seq<(Path, Vec<(Label, File)>)>) -> bool {
    forall|i: int, k: int, j: int, m: int|
        0 <= i < groups.len() && 0 <= j < groups.len() && 0 <= k < groups[i].1@.len() && 0 <= m
            < groups[j].1@.len() && relative(groups[i].0@) == relative(groups[j].0@) && (
        #[trigger] groups[i].1@[k]).0@ == (#[trigger] groups[j].1@[m]).0@ ==> i == j && k == m
}

proof fn lemma_placed_member(
    groups: Seq<(Path, Vec<(Label, File)>)>,
    q: Seq<Seq<char>>,
    upto: int,
    n: int,
)
    requires
        0 <= upto <= groups.len(),
        0 <= n < placed(groups, q, upto).len(),
    ensures
        exists|j: int, k: int|
            0 <= j < upto && 0 <= k < groups[j].1@.len() && relative(groups[j].0@) == q
                && #[trigger] placed(groups, q, upto)[n] == group_views(groups[j].1@)[k],
    decreases upto,
{
    let prev = placed(groups, q, upto - 1);
    if n < prev.len() {
        lemma_placed_member(groups, q, upto - 1, n);
        let (j, k) = choose|j: int, k: int|
            0 <= j < upto - 1 && 0 <= k < groups[j].1@.len() && relative(groups[j].0@) == q
                && #[trigger] placed(groups, q, upto - 1)[n] == group_views(groups[j].1@)[k];
        assert(placed(groups, q, upto)[n] == prev[n]);
    } else {
        let j = upto - 1;
        let k = n - prev.len();
        assert(relative(groups[j].0@) == q);
        assert(placed(groups, q, upto)[n] == group_views(groups[j].1@)[k]);
    }
}

proof fn lemma_placed_has(
    groups: Seq<(Path, Vec<(Label, File)>)>,
    i: int,
    k: int,
    upto: int,
)
    requires
        0 <= i < upto <= groups.len(),
        0 <= k < groups[i].1@.len(),
    ensures
        placed(groups, relative(groups[i].0@), upto).contains(group_views(groups[i].1@)[k]),
    decreases upto,
{
    let q = relative(groups[i].0@);
    let prev = placed(groups, q, upto - 1);
    if i < upto - 1 {
        lemma_placed_has(groups, i, k, upto - 1);
        let w = choose|w: int| 0 <= w < prev.len() && prev[w] == group_views(groups[i].1@)[k];
        assert(placed(groups, q, upto)[w] == prev[w]);
    } else {
        assert(placed(groups, q, upto)[prev.len() + k] == group_views(groups[i].1@)[k]);
    }
}

proof fn lemma_first_named_hit(s: Seq<(Seq<char>, (Seq<u8>, usize))>, name: Seq<char>, from: int, w: int)
    requires
        0 <= from <= w < s.len(),
        s[w].0 == name,
    ensures
        from <= first_named(s, name, from) <= w,
        s[first_named(s, name, from)].0 == name,
    decreases w - from,
{
    if s[from].0 != name {
        lemma_first_named_hit(s, name, from + 1, w);
    }
}

/// A tree built from files at distinct paths holds exactly as many files as
/// it was given, and finding each file by its path gives that file.
pub proof fn law_built_tree_finds_each_file(groups: Seq<(Path, Vec<(Label, File)>)>, d: Directory)
    requires
        distinct_paths(groups),
        forall|q: Seq<Seq<char>>| #[trigger] d.files(q) == placed(groups, q, groups.len() as int),
        d.leaf_count() == total(groups, groups.len() as int),
    ensures
        d.leaf_count() == total(groups, groups.len() as int),
        forall|i: int, k: int|
            0 <= i < groups.len() && 0 <= k < groups[i].1@.len() ==> {
                let s = d.files(relative(groups[i].0@));
                let at = first_named(s, (#[trigger] groups[i].1@[k]).0@, 0);
                at < s.len() && s[at].1 == groups[i].1@[k].1@
            },
{
    assert forall|i: int, k: int| 0 <= i < groups.len() && 0 <= k < groups[i].1@.len() implies {
        let s = d.files(relative(groups[i].0@));
        let at = first_named(s, (#[trigger] groups[i].1@[k]).0@, 0);
        at < s.len() && s[at].1 == groups[i].1@[k].1@
    } by {
        let q = relative(groups[i].0@);
        let s = d.files(q);
        let n = groups.len() as int;
        let name = groups[i].1@[k].0@;
        let v = group_views(groups[i].1@)[k];
        assert(s == placed(groups, q, n));
        lemma_placed_has(groups, i, k, n);
        let w = choose|w: int| 0 <= w < s.len() && s[w] == v;
        lemma_first_named_hit(s, name, 0, w);
        let at = first_named(s, name, 0);
        lemma_placed_member(groups, q, n, at);
        let (j, m) = choose|j: int, m: int|
            0 <= j < n && 0 <= m < groups[j].1@.len() && relative(groups[j].0@) == q
                && #[trigger] placed(groups, q, n)[at] == group_views(groups[j].1@)[m];
        assert(groups[j].1@[m].0@ == name);
        assert(i == j && k == m);
    }
}

} // verus!
