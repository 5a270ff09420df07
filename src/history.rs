//! Histories: non-empty sequences of artifacts, most recent first.

use vstd::prelude::*;
use vstd::std_specs::cmp::PartialEqSpec;

verus! {

/// A non-empty sequence of artifacts (revisions, patches), most recent first.
#[derive(Debug, PartialEq, Eq)]
pub struct History<A> {
    artifacts: Vec<A>,
}

impl<A> View for History<A> {
    type V = Seq<A>;

    closed spec fn view(&self) -> Seq<A> {
        self.artifacts@
    }
}

/// The first index at or after `from` whose artifact compares equal to
/// `target`, or the length when there is none.
pub open spec fn position_from<A: PartialEq>(s: Seq<A>, target: A, from: int) -> int
    decreases s.len() - from,
{
    if from < 0 || from >= s.len() {
        s.len() as int
    } else if s[from].eq_spec(&target) {
        from
    } else {
        position_from(s, target, from + 1)
    }
}

/// Each element of `r` is a clone of the element of `s` at the same index.
pub open spec fn all_cloned<A: Clone>(s: Seq<A>, r: Seq<A>) -> bool {
    &&& r.len() == s.len()
    &&& forall|i: int| 0 <= i < s.len() ==> cloned(s[i], #[trigger] r[i])
}

/// Whether `id_of` may give, for the artifact `a`, an identifier equal to `identifier`.
pub open spec fn has_id<A, I: PartialEq, F: Fn(&A) -> I>(a: A, identifier: I, id_of: F) -> bool {
    exists|id: I| id_of.ensures((&a,), id) && identifier.eq_spec(&id)
}

/// `id_of` gives one identifier for each artifact.
pub open spec fn deterministic<A, I, F: Fn(&A) -> I>(id_of: F) -> bool {
    forall|a: A, x: I, y: I| id_of.ensures((&a,), x) && id_of.ensures((&a,), y) ==> x == y
}

/// Whether some artifact of `s` has an identifier equal to `identifier`.
pub open spec fn holds_id<A, I: PartialEq, F: Fn(&A) -> I>(s: Seq<A>, identifier: I, id_of: F) -> bool {
    exists|i: int| 0 <= i < s.len() && has_id(#[trigger] s[i], identifier, id_of)
}

/// The histories of `hs` that hold an artifact with the identifier, in order.
pub open spec fn keep_holding<A, I: PartialEq, F: Fn(&A) -> I>(
    hs: Seq<History<A>>,
    identifier: I,
    id_of: F,
) -> Seq<History<A>>
    decreases hs.len(),
{
    if hs.len() == 0 {
        hs
    } else {
        let rest = keep_holding(hs.drop_last(), identifier, id_of);
        if holds_id(hs.last()@, identifier, id_of) {
            rest.push(hs.last())
        } else {
            rest
        }
    }
}

impl<A> History<A> {
    /// A history is never empty.
    pub open spec fn wf(&self) -> bool {
        self@.len() > 0
    }

    /// A history of one artifact.
    pub fn new(a: A) -> (r: History<A>)
        ensures
            r@ == seq![a],
            r.wf(),
    {
        let mut artifacts = Vec::new();
        artifacts.push(a);
        History { artifacts }
    }

    /// A history of the given artifacts; `None` when there are none.
    pub fn from_vec(artifacts: Vec<A>) -> (r: Option<History<A>>)
        ensures
            r is Some <==> artifacts@.len() > 0,
            r matches Some(h) ==> h@ == artifacts@,
    {
        if artifacts.len() == 0 {
            None
        } else {
            Some(History { artifacts })
        }
    }

    /// Pushes an artifact onto the end.
    pub fn push(&mut self, a: A)
        ensures
            final(self)@ == old(self)@.push(a),
    {
        self.artifacts.push(a);
    }

    /// The artifacts, most recent first.
    pub fn iter(&self) -> (r: &[A])
        ensures
            r@ == self@,
    {
        self.artifacts.as_slice()
    }

    /// The most recent artifact.
    pub fn first(&self) -> (r: &A)
        requires
            self.wf(),
        ensures
            *r == self@[0],
    {
        &self.artifacts[0]
    }

    /// The history from the first artifact equal to `artifact` onwards; `None`
    /// when no artifact is equal to it.
    pub fn find_suffix(&self, artifact: &A) -> (r: Option<History<A>>)
        where
            A: Clone + PartialEq,
        requires
            A::obeys_eq_spec(),
        ensures
            r is Some <==> position_from(self@, *artifact, 0) < self@.len(),
            r matches Some(h) ==> all_cloned(self@.skip(position_from(self@, *artifact, 0)), h@),
    {
        let n = self.artifacts.len();
        let mut i: usize = 0;
        let mut found = false;
        while i < n && !found
            invariant
                A::obeys_eq_spec(),
                n == self@.len(),
                i <= n,
                found ==> i < n && position_from(self@, *artifact, 0) == i,
                !found ==> position_from(self@, *artifact, 0) == position_from(
                    self@,
                    *artifact,
                    i as int,
                ),
            decreases n - i + (if found { 0int } else { 1int }),
        {
            if self.artifacts[i] == *artifact {
                found = true;
            } else {
                i = i + 1;
            }
        }
        if !found {
            return None;
        }
        let start = i;
        let mut out: Vec<A> = Vec::new();
        while i < n
            invariant
                n == self@.len(),
                start <= i <= n,
                all_cloned(self@.subrange(start as int, i as int), out@),
            decreases n - i,
        {
            out.push(self.artifacts[i].clone());
            assert(self@.subrange(start as int, i + 1).drop_last() =~= self@.subrange(
                start as int,
                i as int,
            ));
            i = i + 1;
        }
        assert(self@.subrange(start as int, n as int) =~= self@.skip(start as int));
        Some(History { artifacts: out })
    }

    /// Applies `f` to each artifact, keeping the order.
    pub fn map<F, B>(&self, f: F) -> (r: History<B>)
        where
            F: Fn(&A) -> B,
        requires
            forall|i: int| 0 <= i < self@.len() ==> f.requires((&self@[i],)),
        ensures
            r@.len() == self@.len(),
            forall|i: int| 0 <= i < self@.len() ==> f.ensures((&self@[i],), #[trigger] r@[i]),
    {
        let n = self.artifacts.len();
        let mut out: Vec<B> = Vec::new();
        let mut i: usize = 0;
        while i < n
            invariant
                n == self@.len(),
                i <= n,
                out@.len() == i,
                forall|k: int| 0 <= k < self@.len() ==> f.requires((&self@[k],)),
                forall|k: int| 0 <= k < i ==> f.ensures((&self@[k],), #[trigger] out@[k]),
            decreases n - i,
        {
            let b = f(&self.artifacts[i]);
            out.push(b);
            i = i + 1;
        }
        History { artifacts: out }
    }

    /// The first `Some` that `f` gives, going from the most recent artifact.
    pub fn find<F, B>(&self, f: F) -> (r: Option<B>)
        where
            F: Fn(&A) -> Option<B>,
        requires
            forall|i: int| 0 <= i < self@.len() ==> f.requires((&self@[i],)),
        ensures
            r is None ==> forall|i: int|
                0 <= i < self@.len() ==> f.ensures((&self@[i],), None::<B>),
            r matches Some(b) ==> exists|i: int|
                0 <= i < self@.len() && f.ensures((&self@[i],), Some(b)) && forall|k: int|
                    0 <= k < i ==> f.ensures((&self@[k],), None::<B>),
    {
        let n = self.artifacts.len();
        let mut i: usize = 0;
        while i < n
            invariant
                n == self@.len(),
                i <= n,
                forall|k: int| 0 <= k < self@.len() ==> f.requires((&self@[k],)),
                forall|k: int| 0 <= k < i ==> f.ensures((&self@[k],), None::<B>),
            decreases n - i,
        {
            let r = f(&self.artifacts[i]);
            match r {
                Some(b) => {
                    return Some(b);
                },
                None => {},
            }
            i = i + 1;
        }
        None
    }

    /// The most recent artifact whose identifier is equal to `identifier`.
    pub fn find_in_history<I, F>(&self, identifier: &I, id_of: F) -> (r: Option<A>)
        where
            A: Clone,
            F: Fn(&A) -> I,
            I: PartialEq,
        requires
            I::obeys_eq_spec(),
            deterministic(id_of),
            forall|i: int| 0 <= i < self@.len() ==> id_of.requires((&self@[i],)),
        ensures
            r is Some <==> holds_id(self@, *identifier, id_of),
            r matches Some(a) ==> exists|i: int|
                0 <= i < self@.len() && has_id(self@[i], *identifier, id_of) && cloned(
                    self@[i],
                    a,
                ) && forall|k: int| 0 <= k < i ==> !has_id(#[trigger] self@[k], *identifier, id_of),
    {
        let n = self.artifacts.len();
        let mut i: usize = 0;
        while i < n
            invariant
                I::obeys_eq_spec(),
                deterministic(id_of),
                n == self@.len(),
                i <= n,
                forall|k: int| 0 <= k < self@.len() ==> id_of.requires((&self@[k],)),
                forall|k: int| 0 <= k < i ==> !has_id(#[trigger] self@[k], *identifier, id_of),
            decreases n - i,
        {
            let current = id_of(&self.artifacts[i]);
            if *identifier == current {
                let a = self.artifacts[i].clone();
                assert(has_id(self@[i as int], *identifier, id_of));
                return Some(a);
            }
            assert(!has_id(self@[i as int], *identifier, id_of));
            i = i + 1;
        }
        None
    }

    /// The histories among `histories` that hold an artifact with the identifier.
    pub fn find_in_histories<I, F>(histories: Vec<Self>, identifier: &I, id_of: F) -> (r: Vec<Self>)
        where
            A: Clone,
            F: Fn(&A) -> I + Copy,
            I: PartialEq,
        requires
            I::obeys_eq_spec(),
            deterministic(id_of),
            forall|a: &A| id_of.requires((a,)),
        ensures
            r@ == keep_holding(histories@, *identifier, id_of),
    {
        let mut rest = histories;
        let mut reversed: Vec<Self> = Vec::new();
        let ghost all = rest@;
        assert(all.take(all.len() as int) =~= all);
        while rest.len() > 0
            invariant
                I::obeys_eq_spec(),
                deterministic(id_of),
                forall|a: &A| id_of.requires((a,)),
                rest@.len() <= all.len(),
                rest@ == all.take(rest@.len() as int),
                keep_holding(all, *identifier, id_of) == keep_holding(rest@, *identifier, id_of)
                    + reversed@.reverse(),
            decreases rest@.len(),
        {
            let ghost before = rest@;
            let h = rest.pop().unwrap();
            assert(before.drop_last() =~= rest@);
            assert(all.take(before.len() as int).drop_last() =~= all.take(before.len() - 1));
            assert(rest@ =~= all.take(rest@.len() as int));
            if h.find_in_history(identifier, id_of).is_some() {
                let ghost rv = reversed@;
                reversed.push(h);
                assert(reversed@.reverse() =~= seq![before.last()] + rv.reverse());
                assert(keep_holding(before, *identifier, id_of) =~= keep_holding(rest@, *identifier, id_of).push(before.last()));
                assert(keep_holding(rest@, *identifier, id_of).push(before.last()) + rv.reverse()
                    =~= keep_holding(rest@, *identifier, id_of) + reversed@.reverse());
            }
        }
        assert(keep_holding(rest@, *identifier, id_of) =~= Seq::<Self>::empty());
        let mut out: Vec<Self> = Vec::new();
        while reversed.len() > 0
            invariant
                keep_holding(all, *identifier, id_of) == out@ + reversed@.reverse(),
            decreases reversed@.len(),
        {
            let ghost rv = reversed@;
            let h = reversed.pop().unwrap();
            assert(rv.reverse() =~= seq![h] + reversed@.reverse());
            out.push(h);
            assert(out@ + reversed@.reverse() =~= out@.drop_last() + rv.reverse());
        }
        assert(reversed@.reverse() =~= Seq::<Self>::empty());
        assert(out@ + reversed@.reverse() =~= out@);
        out
    }
}

impl<A: Clone> Clone for History<A> {
    fn clone(&self) -> (r: History<A>)
        ensures
            all_cloned(self@, r@),
    {
        let artifacts = self.artifacts.clone();
        History { artifacts }
    }
}

} // verus!
