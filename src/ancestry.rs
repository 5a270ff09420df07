//! Ancestry traversal over parent links, and the per-path index of the
//! revisions that touched each path.
//!
//! Revisions are numbered `0..n`; `parents[i]` lists the numbers of the
//! parents of revision `i`.

use crate::forest::Forest;
use crate::path::{texts, Path};
use vstd::prelude::*;

verus! {

/// The parent lists of a graph.
pub open spec fn graph_view(parents: Seq<Vec<usize>>) -> Seq<Seq<usize>> {
    parents.map_values(|v: Vec<usize>| v@)
}

/// Every parent number names a revision of the graph.
pub open spec fn graph_wf(parents: Seq<Seq<usize>>) -> bool {
    forall|i: int, k: int|
        0 <= i < parents.len() && 0 <= k < parents[i].len() ==> #[trigger] parents[i][k]
            < parents.len()
}

/// `order` is a traversal of the ancestry of `start`: it begins at `start`,
/// visits each revision once, reaches every later revision as a parent of an
/// earlier one, and holds every parent of every revision it holds.
pub open spec fn is_ancestry(parents: Seq<Seq<usize>>, start: usize, order: Seq<usize>) -> bool {
    &&& order.len() >= 1
    &&& order[0] == start
    &&& order.no_duplicates()
    &&& forall|i: int| 0 <= i < order.len() ==> #[trigger] order[i] < parents.len()
    &&& forall|i: int| 1 <= i < order.len() ==> #[trigger] reached_at(parents, order, i)
    &&& forall|i: int, k: int|
        0 <= i < order.len() && 0 <= k < parents[order[i] as int].len() ==> order.contains(
            #[trigger] parents[order[i] as int][k],
        )
}

/// The revision at position `i` of `order` is a parent of one at an earlier position.
pub open spec fn reached_at(parents: Seq<Seq<usize>>, order: Seq<usize>, i: int) -> bool {
    exists|j: int, k: int|
        0 <= j < i && 0 <= k < parents[order[j] as int].len() && #[trigger] parents[order[
            j
        ] as int][k] == order[i]
}

/// `w` records, for each revision of `order` after the first, the position
/// of the revision it was reached from and which parent of that one it is,
/// such that `order` is the breadth-first order: revisions are reached in
/// order of the position they are reached from, then of the parent's place
/// in the list, each at its first occurrence as a parent.
pub open spec fn breadth_first_witness(
    parents: Seq<Seq<usize>>,
    order: Seq<usize>,
    w: Seq<(int, int)>,
) -> bool {
    &&& w.len() == order.len()
    &&& forall|i: int|
        1 <= i < order.len() ==> 0 <= (#[trigger] w[i]).0 < i && 0 <= w[i].1 < parents[order[
            w[i].0
        ] as int].len() && parents[order[w[i].0] as int][w[i].1] == order[i]
    &&& forall|i: int, j: int|
        1 <= i < j < order.len() ==> (#[trigger] w[i]).0 < (#[trigger] w[j]).0 || (w[i].0
            == w[j].0 && w[i].1 < w[j].1)
    &&& forall|i: int, k: int, m: int|
        1 <= i < order.len() && 0 <= k < w[i].0 && 0 <= m < parents[order[k] as int].len()
            ==> #[trigger] parents[order[k] as int][m] != #[trigger] order[i]
    &&& forall|i: int, m: int|
        1 <= i < order.len() && 0 <= m < w[i].1 ==> #[trigger] parents[order[w[i].0] as int][m]
            != order[i]
}

/// `order` is a breadth-first traversal of its start's ancestry.
pub open spec fn is_breadth_first(parents: Seq<Seq<usize>>, order: Seq<usize>) -> bool {
    exists|w: Seq<(int, int)>| #[trigger] breadth_first_witness(parents, order, w)
}

/// The number of `true` entries.
pub open spec fn count_true(s: Seq<bool>) -> nat
    decreases s.len(),
{
    if s.len() == 0 {
        0
    } else {
        count_true(s.drop_last()) + if s.last() {
            1nat
        } else {
            0nat
        }
    }
}

proof fn lemma_count_bound(s: Seq<bool>)
    ensures
        count_true(s) <= s.len(),
    decreases s.len(),
{
    if s.len() > 0 {
        lemma_count_bound(s.drop_last());
    }
}

proof fn lemma_count_set(s: Seq<bool>, i: int)
    requires
        0 <= i < s.len(),
        !s[i],
    ensures
        count_true(s.update(i, true)) == count_true(s) + 1,
    decreases s.len(),
{
    let t = s.update(i, true);
    if i < s.len() - 1 {
        assert(t.drop_last() =~= s.drop_last().update(i, true));
        lemma_count_set(s.drop_last(), i);
    } else {
        assert(t.drop_last() =~= s.drop_last());
    }
}

/// The ancestry of `start`, breadth first: `start`, then its parents, then
/// theirs, each revision once, at its first visit.
pub fn ancestry(parents: &Vec<Vec<usize>>, start: usize) -> (r: Vec<usize>)
    requires
        graph_wf(graph_view(parents@)),
        start < parents@.len(),
    ensures
        is_ancestry(graph_view(parents@), start, r@),
        is_breadth_first(graph_view(parents@), r@),
{
    let ghost g = graph_view(parents@);
    let n = parents.len();
    let mut seen: Vec<bool> = Vec::new();
    let mut m: usize = 0;
    while m < n
        invariant
            m <= n,
            seen@.len() == m,
            forall|v: int| 0 <= v < m ==> !seen@[v],
            count_true(seen@) == 0,
        decreases n - m,
    {
        let ghost before = seen@;
        seen.push(false);
        assert(seen@.drop_last() =~= before);
        m = m + 1;
    }
    proof {
        lemma_count_set(seen@, start as int);
    }
    let ghost fresh = seen@;
    seen.set(start, true);
    let mut order: Vec<usize> = Vec::new();
    order.push(start);
    proof {
        assert forall|v: int| 0 <= v < n implies (#[trigger] seen@[v] <==> order@.contains(
            v as usize,
        )) by {
            assert(order@[0] == start);
            if v != start as int {
                assert(!fresh[v]);
                if order@.contains(v as usize) {
                    let w = choose|w: int| 0 <= w < order@.len() && order@[w] == v as usize;
                    assert(w == 0);
                }
            }
        }
    }
    // for each visited revision after the first: the position of the
    // revision it was reached from, and which parent of that one it is
    let ghost mut reached: Seq<(int, int)> = seq![(0int, 0int)];
    let mut head: usize = 0;
    while head < order.len()
        invariant
            n == parents@.len(),
            g == graph_view(parents@),
            graph_wf(g),
            seen@.len() == n,
            count_true(seen@) == order@.len(),
            head <= order@.len(),
            order@.len() >= 1,
            order@[0] == start,
            order@.no_duplicates(),
            reached.len() == order@.len(),
            forall|i: int| 0 <= i < order@.len() ==> #[trigger] order@[i] < n,
            forall|v: int| 0 <= v < n ==> (#[trigger] seen@[v] <==> order@.contains(v as usize)),
            forall|i: int|
                1 <= i < order@.len() ==> 0 <= (#[trigger] reached[i]).0 < i && 0 <= reached[i].1 < g[order@[
                    reached[i].0
                ] as int].len() && g[order@[reached[i].0] as int][reached[i].1] == order@[i],
            forall|i: int, k: int|
                0 <= i < head && 0 <= k < g[order@[i] as int].len() ==> seen@[
                    #[trigger] g[order@[i] as int][k] as int
                ],
            forall|i: int, j: int|
                1 <= i < j < order@.len() ==> (#[trigger] reached[i]).0 < (#[trigger] reached[j]).0
                    || (reached[i].0 == reached[j].0 && reached[i].1 < reached[j].1),
            forall|i: int| 1 <= i < order@.len() ==> (#[trigger] reached[i]).0 < head,
            forall|i: int, k: int, m: int|
                1 <= i < order@.len() && 0 <= k < reached[i].0 && 0 <= m < g[order@[k] as int].len()
                    ==> #[trigger] g[order@[k] as int][m] != #[trigger] order@[i],
            forall|i: int, m: int|
                1 <= i < order@.len() && 0 <= m < reached[i].1 ==> #[trigger] g[order@[
                    reached[i].0
                ] as int][m] != order@[i],
        decreases n - head,
    {
        proof {
            lemma_count_bound(seen@);
        }
        let r = order[head];
        let ps = &parents[r];
        assert(ps@ == g[r as int]);
        let mut k: usize = 0;
        while k < ps.len()
            invariant
                n == parents@.len(),
                g == graph_view(parents@),
                graph_wf(g),
                ps@ == g[r as int],
                r == order@[head as int],
                r < n,
                seen@.len() == n,
                count_true(seen@) == order@.len(),
                head < order@.len(),
                order@.len() >= 1,
                order@[0] == start,
                order@.no_duplicates(),
                k <= ps@.len(),
                reached.len() == order@.len(),
                forall|i: int| 0 <= i < order@.len() ==> #[trigger] order@[i] < n,
                forall|v: int| 0 <= v < n ==> (#[trigger] seen@[v] <==> order@.contains(v as usize)),
                forall|i: int|
                    1 <= i < order@.len() ==> 0 <= (#[trigger] reached[i]).0 < i && 0 <= reached[i].1 < g[order@[
                        reached[i].0
                    ] as int].len() && g[order@[reached[i].0] as int][reached[i].1] == order@[i],
                forall|i: int, k2: int|
                    0 <= i < head && 0 <= k2 < g[order@[i] as int].len() ==> seen@[
                        #[trigger] g[order@[i] as int][k2] as int
                    ],
                forall|k2: int| 0 <= k2 < k ==> seen@[#[trigger] g[r as int][k2] as int],
                forall|i: int, j: int|
                    1 <= i < j < order@.len() ==> (#[trigger] reached[i]).0 < (#[trigger] reached[j]).0
                        || (reached[i].0 == reached[j].0 && reached[i].1 < reached[j].1),
                forall|i: int|
                    1 <= i < order@.len() ==> (#[trigger] reached[i]).0 < head || (reached[i].0 == head
                        && reached[i].1 < k),
                forall|i: int, k1: int, m: int|
                    1 <= i < order@.len() && 0 <= k1 < reached[i].0 && 0 <= m < g[order@[
                        k1
                    ] as int].len() ==> #[trigger] g[order@[k1] as int][m] != #[trigger] order@[i],
                forall|i: int, m: int|
                    1 <= i < order@.len() && 0 <= m < reached[i].1 ==> #[trigger] g[order@[
                        reached[i].0
                    ] as int][m] != order@[i],
            decreases ps@.len() - k,
        {
            let p = ps[k];
            assert(p == g[r as int][k as int]);
            assert(p < n);
            if !seen[p] {
                proof {
                    lemma_count_set(seen@, p as int);
                    lemma_count_bound(seen@.update(p as int, true));
                }
                let ghost before_seen = seen@;
                seen.set(p, true);
                let ghost before = order@;
                order.push(p);
                proof {
                    reached = reached.push((head as int, k as int));
                    assert(!before.contains(p));
                    assert(order@[order@.len() - 1] == p);
                    assert(order@.contains(p));
                    assert forall|v: int| 0 <= v < n implies (#[trigger] seen@[v] <==> order@.contains(
                        v as usize,
                    )) by {
                        if v != p as int {
                            assert(seen@[v] == before_seen[v]);
                            if order@.contains(v as usize) {
                                let w = choose|w: int| 0 <= w < order@.len() && order@[w] == v as usize;
                                assert(w != order@.len() - 1);
                                assert(before[w] == v as usize);
                            }
                            if before.contains(v as usize) {
                                let w = choose|w: int| 0 <= w < before.len() && before[w] == v as usize;
                                assert(order@[w] == v as usize);
                            }
                        }
                    }
                    assert forall|i: int| 1 <= i < order@.len() implies 0 <= (#[trigger] reached[i]).0 < i
                        && 0 <= reached[i].1 < g[order@[reached[i].0] as int].len() && g[order@[
                        reached[i].0
                    ] as int][reached[i].1] == order@[i] by {
                        if i < order@.len() - 1 {
                            assert(order@[i] == before[i]);
                            assert(order@[reached[i].0] == before[reached[i].0]);
                        }
                    }
                    let last = order@.len() - 1;
                    assert forall|i: int, k1: int, m: int|
                        1 <= i < order@.len() && 0 <= k1 < reached[i].0 && 0 <= m < g[order@[
                            k1
                        ] as int].len() implies #[trigger] g[order@[k1] as int][m] != #[trigger] order@[i] by {
                        assert(order@[k1] == before[k1]);
                        if i < last {
                            assert(order@[i] == before[i]);
                        } else {
                            assert(seen@[g[before[k1] as int][m] as int]);
                            assert(before_seen[g[before[k1] as int][m] as int]);
                        }
                    }
                    assert forall|i: int, m: int|
                        1 <= i < order@.len() && 0 <= m < reached[i].1 implies #[trigger] g[order@[
                            reached[i].0
                        ] as int][m] != order@[i] by {
                        assert(order@[reached[i].0] == before[reached[i].0]);
                        if i < last {
                            assert(order@[i] == before[i]);
                        } else {
                            assert(before_seen[g[r as int][m] as int]);
                        }
                    }
                }
            }
            k = k + 1;
        }
        head = head + 1;
    }
    proof {
        assert forall|i: int| 1 <= i < order@.len() implies #[trigger] reached_at(g, order@, i) by {
            let (j, k) = reached[i];
            assert(g[order@[j] as int][k] == order@[i]);
        }
        assert forall|i: int, k: int|
            0 <= i < order@.len() && 0 <= k < g[order@[i] as int].len() implies order@.contains(
                #[trigger] g[order@[i] as int][k],
            ) by {
            assert(seen@[g[order@[i] as int][k] as int]);
        }
        assert(breadth_first_witness(g, order@, reached));
    }
    order
}

/// A revision found touching a path, with its rank in the traversal.
#[derive(Debug, Clone, Copy, PartialEq, Eq, Structural)]
pub struct Ranked {
    /// The position of the revision in the traversal; 0 is the start.
    pub rank: usize,
    /// The number of the revision.
    pub revision: usize,
}

impl Ranked {
    /// Orders by rank, the lower rank (closer to the start) first as the greater.
    pub fn compare_by_id(&self, other: &Ranked) -> (r: core::cmp::Ordering)
        ensures
            self.rank < other.rank ==> r == core::cmp::Ordering::Greater,
            self.rank > other.rank ==> r == core::cmp::Ordering::Less,
            self.rank == other.rank ==> r == core::cmp::Ordering::Equal,
    {
        if self.rank < other.rank {
            core::cmp::Ordering::Greater
        } else if self.rank > other.rank {
            core::cmp::Ordering::Less
        } else {
            core::cmp::Ordering::Equal
        }
    }
}

/// The entries that the first `upto` touched paths of the revision at `rank`
/// add at path `p`.
pub open spec fn entries_for(
    order: Seq<usize>,
    touched: Seq<Seq<Seq<Seq<char>>>>,
    p: Seq<Seq<char>>,
    rank: int,
    upto: int,
) -> Seq<Ranked>
    decreases upto,
{
    if upto <= 0 {
        Seq::empty()
    } else {
        let prev = entries_for(order, touched, p, rank, upto - 1);
        if touched[order[rank] as int][upto - 1] == p {
            prev.push(Ranked { rank: rank as usize, revision: order[rank] })
        } else {
            prev
        }
    }
}

/// The entries at path `p` after the revisions of ranks `0..ranks` were indexed.
pub open spec fn index_model(
    order: Seq<usize>,
    touched: Seq<Seq<Seq<Seq<char>>>>,
    p: Seq<Seq<char>>,
    ranks: int,
) -> Seq<Ranked>
    decreases ranks,
{
    if ranks <= 0 {
        Seq::empty()
    } else {
        index_model(order, touched, p, ranks - 1) + entries_for(
            order,
            touched,
            p,
            ranks - 1,
            touched[order[ranks - 1] as int].len() as int,
        )
    }
}

/// The revision at `rank` touched `p`.
pub open spec fn touches_at(
    order: Seq<usize>,
    touched: Seq<Seq<Seq<Seq<char>>>>,
    p: Seq<Seq<char>>,
    rank: int,
) -> bool {
    touched[order[rank] as int].contains(p)
}

/// The smallest rank below `ranks` whose revision touched `p`, if any.
pub open spec fn first_touch(
    order: Seq<usize>,
    touched: Seq<Seq<Seq<Seq<char>>>>,
    p: Seq<Seq<char>>,
    ranks: int,
) -> Option<int>
    decreases ranks,
{
    if ranks <= 0 {
        None
    } else {
        match first_touch(order, touched, p, ranks - 1) {
            Some(r) => Some(r),
            None => if touches_at(order, touched, p, ranks - 1) {
                Some(ranks - 1)
            } else {
                None
            },
        }
    }
}

/// The paths each revision touched, as label texts.
pub open spec fn touched_view(touched: Seq<Vec<Path>>) -> Seq<Seq<Seq<Seq<char>>>> {
    touched.map_values(|v: Vec<Path>| v@.map_values(|p: Path| p@))
}

proof fn lemma_entries_for(
    order: Seq<usize>,
    touched: Seq<Seq<Seq<Seq<char>>>>,
    p: Seq<Seq<char>>,
    rank: int,
    upto: int,
)
    requires
        0 <= rank < order.len(),
        order[rank] < touched.len(),
        0 <= upto <= touched[order[rank] as int].len(),
    ensures
        forall|e: Ranked|
            #[trigger] entries_for(order, touched, p, rank, upto).contains(e) ==> e == (Ranked {
                rank: rank as usize,
                revision: order[rank],
            }),
        entries_for(order, touched, p, rank, upto).len() > 0 <==> touched[order[
            rank
        ] as int].take(upto).contains(p),
    decreases upto,
{
    let t = touched[order[rank] as int];
    if upto > 0 {
        lemma_entries_for(order, touched, p, rank, upto - 1);
        assert(t.take(upto).drop_last() =~= t.take(upto - 1));
        let prev = entries_for(order, touched, p, rank, upto - 1);
        if t[upto - 1] == p {
            assert(t.take(upto)[upto - 1] == p);
        } else if t.take(upto).contains(p) {
            let w = choose|w: int| 0 <= w < t.take(upto).len() && t.take(upto)[w] == p;
            assert(t.take(upto - 1)[w] == p);
        }
        assert forall|e: Ranked| #[trigger] entries_for(order, touched, p, rank, upto).contains(
            e,
        ) implies e == (Ranked { rank: rank as usize, revision: order[rank] }) by {
            if t[upto - 1] == p && e == (Ranked { rank: rank as usize, revision: order[rank] }) {
            } else {
                assert(entries_for(order, touched, p, rank, upto).len() == prev.len() || entries_for(
                    order,
                    touched,
                    p,
                    rank,
                    upto,
                )[prev.len() as int] == (Ranked { rank: rank as usize, revision: order[rank] }));
                let w = choose|w: int|
                    0 <= w < entries_for(order, touched, p, rank, upto).len() && entries_for(
                        order,
                        touched,
                        p,
                        rank,
                        upto,
                    )[w] == e;
                assert(w < prev.len());
                assert(prev[w] == e);
                assert(prev.contains(e));
            }
        }
    } else {
        assert(t.take(0) =~= Seq::<Seq<Seq<char>>>::empty());
    }
}

/// What the index holds at `p`: exactly the revisions of ranks below `ranks`
/// that touched `p`; and it is empty exactly when none did.
proof fn lemma_index_model(
    order: Seq<usize>,
    touched: Seq<Seq<Seq<Seq<char>>>>,
    p: Seq<Seq<char>>,
    ranks: int,
)
    requires
        0 <= ranks <= order.len(),
        order.len() <= usize::MAX,
        forall|i: int| 0 <= i < order.len() ==> #[trigger] order[i] < touched.len(),
    ensures
        forall|e: Ranked|
            #[trigger] index_model(order, touched, p, ranks).contains(e) ==> e.rank < ranks
                && e.revision == order[e.rank as int] && touches_at(order, touched, p, e.rank as int),
        first_touch(order, touched, p, ranks) is None <==> index_model(
            order,
            touched,
            p,
            ranks,
        ).len() == 0,
        first_touch(order, touched, p, ranks) matches Some(r) ==> 0 <= r < ranks && touches_at(
            order,
            touched,
            p,
            r,
        ) && index_model(order, touched, p, ranks).contains(
            Ranked { rank: r as usize, revision: order[r] },
        ) && forall|r2: int| 0 <= r2 < r ==> !touches_at(order, touched, p, r2),
    decreases ranks,
{
    if ranks > 0 {
        let prev = index_model(order, touched, p, ranks - 1);
        let t = touched[order[ranks - 1] as int];
        let add = entries_for(order, touched, p, ranks - 1, t.len() as int);
        lemma_index_model(order, touched, p, ranks - 1);
        lemma_entries_for(order, touched, p, ranks - 1, t.len() as int);
        assert(t.take(t.len() as int) =~= t);
        let all = index_model(order, touched, p, ranks);
        assert(all == prev + add);
        assert forall|e: Ranked| #[trigger] all.contains(e) implies e.rank < ranks && e.revision
            == order[e.rank as int] && touches_at(order, touched, p, e.rank as int) by {
            let w = choose|w: int| 0 <= w < all.len() && all[w] == e;
            if w < prev.len() {
                assert(prev[w] == e);
                assert(prev.contains(e));
            } else {
                assert(add[w - prev.len()] == e);
                assert(add.contains(e));
            }
        }
        match first_touch(order, touched, p, ranks - 1) {
            Some(r) => {
                let e = Ranked { rank: r as usize, revision: order[r] };
                let w = choose|w: int| 0 <= w < prev.len() && prev[w] == e;
                assert(all[w] == e);
            },
            None => {
                if touches_at(order, touched, p, ranks - 1) {
                    let e = add[0];
                    assert(add.contains(e));
                    assert(all[prev.len() as int] == e);
                    assert(e == Ranked { rank: (ranks - 1) as usize, revision: order[ranks - 1] });
                    assert forall|r2: int| 0 <= r2 < ranks - 1 implies !touches_at(
                        order,
                        touched,
                        p,
                        r2,
                    ) by {
                        lemma_first_touch_none(order, touched, p, ranks - 1, r2);
                    }
                } else {
                    assert(add.len() == 0);
                }
            },
        }
    }
}

proof fn lemma_first_touch_none(
    order: Seq<usize>,
    touched: Seq<Seq<Seq<Seq<char>>>>,
    p: Seq<Seq<char>>,
    ranks: int,
    r: int,
)
    requires
        first_touch(order, touched, p, ranks) is None,
        0 <= r < ranks,
    ensures
        !touches_at(order, touched, p, r),
    decreases ranks,
{
    if r < ranks - 1 {
        lemma_first_touch_none(order, touched, p, ranks - 1, r);
    }
}

/// The paths touched by the revisions of a traversal, indexed by path, with
/// each revision ranked by its position in the traversal.
pub struct LastTouchIndex {
    forest: Forest<Ranked>,
    order: Vec<usize>,
    touched: Ghost<Seq<Seq<Seq<Seq<char>>>>>,
}

impl LastTouchIndex {
    /// The traversal the index was built over.
    pub closed spec fn order(&self) -> Seq<usize> {
        self.order@
    }

    /// The paths each revision touched.
    pub closed spec fn touched(&self) -> Seq<Seq<Seq<Seq<char>>>> {
        self.touched@
    }

    /// The entries stored at `p`.
    pub closed spec fn entries(&self, p: Seq<Seq<char>>) -> Seq<Ranked> {
        self.forest.lookup(p)
    }

    /// The index holds, at each path, the revisions of the traversal that
    /// touched it, in order of rank.
    pub closed spec fn wf(&self) -> bool {
        &&& self.forest.wf()
        &&& self.order@.len() <= usize::MAX
        &&& forall|i: int| 0 <= i < self.order@.len() ==> #[trigger] self.order@[i] < self.touched@.len()
        &&& forall|p: Seq<Seq<char>>|
            #[trigger] self.forest.lookup(p) == index_model(
                self.order@,
                self.touched@,
                p,
                self.order@.len() as int,
            )
    }

    /// Indexes, for each revision of `order` in turn, every path it touched.
    pub fn build(order: &Vec<usize>, touched: &Vec<Vec<Path>>) -> (r: LastTouchIndex)
        requires
            forall|i: int| 0 <= i < order@.len() ==> #[trigger] order@[i] < touched@.len(),
        ensures
            r.wf(),
            r.order() == order@,
            r.touched() == touched_view(touched@),
            forall|p: Seq<Seq<char>>|
                #[trigger] r.entries(p) == index_model(order@, touched_view(touched@), p, order@.len() as int),
    {
        let ghost tv = touched_view(touched@);
        let mut forest: Forest<Ranked> = Forest::new();
        let mut rank: usize = 0;
        while rank < order.len()
            invariant
                tv == touched_view(touched@),
                forall|i: int| 0 <= i < order@.len() ==> #[trigger] order@[i] < touched@.len(),
                rank <= order@.len(),
                forest.wf(),
                forall|p: Seq<Seq<char>>|
                    #[trigger] forest.lookup(p) == index_model(order@, tv, p, rank as int),
            decreases order@.len() - rank,
        {
            let rev = order[rank];
            let paths = &touched[rev];
            assert(tv[rev as int] == paths@.map_values(|p: Path| p@));
            let mut j: usize = 0;
            while j < paths.len()
                invariant
                    tv == touched_view(touched@),
                    forall|i: int| 0 <= i < order@.len() ==> #[trigger] order@[i] < touched@.len(),
                    rank < order@.len(),
                    rev == order@[rank as int],
                    paths@ == touched@[rev as int]@,
                    tv[rev as int] == paths@.map_values(|p: Path| p@),
                    j <= paths@.len(),
                    forest.wf(),
                    forall|p: Seq<Seq<char>>|
                        #[trigger] forest.lookup(p) == index_model(order@, tv, p, rank as int)
                            + entries_for(order@, tv, p, rank as int, j as int),
                decreases paths@.len() - j,
            {
                let ghost before = forest;
                let e = Ranked { rank, revision: rev };
                forest.insert(paths[j].iter(), e);
                proof {
                    assert forall|p: Seq<Seq<char>>| #[trigger] forest.lookup(p) == index_model(
                        order@,
                        tv,
                        p,
                        rank as int,
                    ) + entries_for(order@, tv, p, rank as int, j + 1) by {
                        assert(before.lookup(p) == index_model(order@, tv, p, rank as int)
                            + entries_for(order@, tv, p, rank as int, j as int));
                        assert(tv[rev as int][j as int] == paths@[j as int]@);
                        if p == paths@[j as int]@ {
                            assert((index_model(order@, tv, p, rank as int) + entries_for(
                                order@,
                                tv,
                                p,
                                rank as int,
                                j as int,
                            )).push(e) =~= index_model(order@, tv, p, rank as int) + entries_for(
                                order@,
                                tv,
                                p,
                                rank as int,
                                j + 1,
                            ));
                        }
                    }
                }
                j = j + 1;
            }
            proof {
                assert forall|p: Seq<Seq<char>>| #[trigger] forest.lookup(p) == index_model(
                    order@,
                    tv,
                    p,
                    rank + 1,
                ) by {
                    assert(tv[rev as int].len() == paths@.len());
                }
            }
            rank = rank + 1;
        }
        LastTouchIndex { forest, order: order.clone(), touched: Ghost(tv) }
    }

    /// The revision of smallest rank that touched exactly `path`; `None` when
    /// no revision of the traversal touched it.
    pub fn last_touch(&self, path: &Path) -> (r: Option<usize>)
        requires
            self.wf(),
        ensures
            match first_touch(self.order(), self.touched(), path@, self.order().len() as int) {
                None => r is None,
                Some(k) => r == Some(self.order()[k]),
            },
    {
        let ghost p = path@;
        proof {
            lemma_index_model(self.order@, self.touched@, p, self.order@.len() as int);
        }
        match self.forest.find(path.iter()) {
            None => None,
            Some(entries) => {
                let ghost model = index_model(self.order@, self.touched@, p, self.order@.len() as int);
                assert(entries@ == model);
                let mut best = entries[0];
                assert(model.contains(best));
                let mut i: usize = 1;
                while i < entries.len()
                    invariant
                        entries@ == model,
                        1 <= i <= entries@.len(),
                        model.contains(best),
                        forall|k: int| 0 <= k < i ==> best.rank <= (#[trigger] entries@[k]).rank,
                    decreases entries@.len() - i,
                {
                    if entries[i].rank < best.rank {
                        best = entries[i];
                        assert(model.contains(best));
                    }
                    i = i + 1;
                }
                proof {
                    let r = first_touch(self.order@, self.touched@, p, self.order@.len() as int)->Some_0;
                    let er = Ranked { rank: r as usize, revision: self.order@[r] };
                    let w = choose|w: int| 0 <= w < model.len() && model[w] == er;
                    assert(best.rank <= entries@[w].rank);
                    assert(touches_at(self.order@, self.touched@, p, best.rank as int));
                }
                Some(best.revision)
            },
        }
    }
}

/// The revision that last touched `path` as seen from `start`: the first
/// revision of the breadth-first ancestry traversal of `start` whose touched
/// paths include `path`, or `None` when no revision of that ancestry touched it.
pub fn last_touching(
    parents: &Vec<Vec<usize>>,
    touched: &Vec<Vec<Path>>,
    start: usize,
    path: &Path,
) -> (r: Option<usize>)
    requires
        graph_wf(graph_view(parents@)),
        start < parents@.len(),
        touched@.len() == parents@.len(),
    ensures
        exists|order: Seq<usize>|
            #[trigger] is_ancestry(graph_view(parents@), start, order) && is_breadth_first(
                graph_view(parents@),
                order,
            ) && match first_touch(
                order,
                touched_view(touched@),
                path@,
                order.len() as int,
            ) {
                None => r is None,
                Some(k) => r == Some(order[k]),
            },
{
    let order = ancestry(parents, start);
    let index = LastTouchIndex::build(&order, touched);
    let r = index.last_touch(path);
    assert(is_ancestry(graph_view(parents@), start, order@));
    r
}

proof fn lemma_first_touch_some(
    order: Seq<usize>,
    touched: Seq<Seq<Seq<Seq<char>>>>,
    p: Seq<Seq<char>>,
    ranks: int,
)
    ensures
        first_touch(order, touched, p, ranks) matches Some(r) ==> 0 <= r < ranks && touches_at(
            order,
            touched,
            p,
            r,
        ) && forall|r2: int| 0 <= r2 < r ==> !touches_at(order, touched, p, r2),
    decreases ranks,
{
    if ranks > 0 {
        lemma_first_touch_some(order, touched, p, ranks - 1);
        if first_touch(order, touched, p, ranks - 1) is None {
            assert forall|r2: int| 0 <= r2 < ranks - 1 implies !touches_at(order, touched, p, r2) by {
                lemma_first_touch_none(order, touched, p, ranks - 1, r2);
            }
        }
    }
}

/// The revision that last touched a path, over a traversal: none where no
/// revision of the traversal touched it; the start where the start touched
/// it; and the one revision that touched it where only one did.
pub proof fn law_last_touch_cases(
    order: Seq<usize>,
    touched: Seq<Seq<Seq<Seq<char>>>>,
    p: Seq<Seq<char>>,
)
    requires
        order.len() >= 1,
    ensures
        (forall|r: int| 0 <= r < order.len() ==> !touches_at(order, touched, p, r)) ==> first_touch(
            order,
            touched,
            p,
            order.len() as int,
        ) is None,
        touches_at(order, touched, p, 0) ==> first_touch(order, touched, p, order.len() as int)
            == Some(0int),
        forall|r: int|
            0 <= r < order.len() && #[trigger] touches_at(order, touched, p, r) && (forall|r2: int|
                0 <= r2 < order.len() && r2 != r ==> !touches_at(order, touched, p, r2))
                ==> first_touch(order, touched, p, order.len() as int) == Some(r),
{
    let n = order.len() as int;
    lemma_first_touch_some(order, touched, p, n);
    if first_touch(order, touched, p, n) is None {
        assert forall|r: int| 0 <= r < n implies !touches_at(order, touched, p, r) by {
            lemma_first_touch_none(order, touched, p, n, r);
        }
    }
}

/// How many of the revisions touching a path to report.
#[derive(Debug, Clone, Copy, PartialEq, Eq, Structural)]
pub enum CommitHistory {
    /// Every one, in traversal order.
    Full,
    /// Only the first, the one closest to the start.
    Last,
}

/// The revisions among the first `upto` of `order` whose diff touched the path.
pub open spec fn touching(order: Seq<usize>, touched: Seq<bool>, upto: int) -> Seq<usize>
    decreases upto,
{
    if upto <= 0 {
        Seq::empty()
    } else if touched[order[upto - 1] as int] {
        touching(order, touched, upto - 1).push(order[upto - 1])
    } else {
        touching(order, touched, upto - 1)
    }
}

/// The revisions of the traversal `order` that touched a path, where
/// `touched[r]` tells whether revision `r` did: all of them in order, or only
/// the first.
pub fn file_history(order: &Vec<usize>, touched: &Vec<bool>, mode: CommitHistory) -> (r: Vec<usize>)
    requires
        forall|i: int| 0 <= i < order@.len() ==> #[trigger] order@[i] < touched@.len(),
    ensures
        mode == CommitHistory::Full ==> r@ == touching(order@, touched@, order@.len() as int),
        mode == CommitHistory::Last ==> r@ == if touching(order@, touched@, order@.len() as int).len()
            > 0 {
            seq![touching(order@, touched@, order@.len() as int)[0]]
        } else {
            Seq::empty()
        },
{
    let mut out: Vec<usize> = Vec::new();
    let mut i: usize = 0;
    while i < order.len()
        invariant
            forall|k: int| 0 <= k < order@.len() ==> #[trigger] order@[k] < touched@.len(),
            i <= order@.len(),
            out@ == touching(order@, touched@, i as int),
            mode == CommitHistory::Last ==> out@.len() == 0,
        decreases order@.len() - i,
    {
        let rev = order[i];
        if touched[rev] {
            out.push(rev);
            if mode == CommitHistory::Last {
                proof {
                    lemma_touching_prefix(order@, touched@, i + 1, order@.len() as int);
                }
                return out;
            }
        }
        i = i + 1;
    }
    out
}

proof fn lemma_touching_prefix(order: Seq<usize>, touched: Seq<bool>, i: int, j: int)
    requires
        0 <= i <= j,
    ensures
        touching(order, touched, i).len() <= touching(order, touched, j).len(),
        forall|k: int|
            0 <= k < touching(order, touched, i).len() ==> #[trigger] touching(order, touched, j)[k]
                == touching(order, touched, i)[k],
    decreases j - i,
{
    if i < j {
        lemma_touching_prefix(order, touched, i, j - 1);
    }
}

} // verus!
