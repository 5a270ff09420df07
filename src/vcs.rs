//! A browser over a repository: the history it is viewing, and a rendering
//! of that history into a directory tree.

use crate::directory::Directory;
use crate::history::{all_cloned, History};
use vstd::prelude::*;

verus! {

/// What a version-control backend offers: histories by identifier, all its
/// histories, and the identifier of an artifact.
pub trait VCS<A, E> {
    /// The way to identify a history.
    type HistoryId;

    /// The way to identify an artifact.
    type ArtefactId;

    /// The history that `identifier` names.
    fn get_history(&self, identifier: Self::HistoryId) -> Result<History<A>, E>;

    /// Every history of the repository.
    fn get_histories(&self) -> Result<Vec<History<A>>, E>;

    /// The identifier of an artifact.
    fn get_identifier(artifact: &A) -> Self::ArtefactId;
}

/// A repository, the history being viewed, and the function that renders a
/// history of the repository into a directory tree. The rendering is done
/// afresh on each request.
#[verifier::reject_recursive_types(Repo)]
#[verifier::reject_recursive_types(A)]
#[verifier::reject_recursive_types(E)]
pub struct Browser<Repo, A, E, S>
    where
        S: Fn(&Repo, &History<A>) -> Result<Directory, E>,
 {
    snapshot: S,
    history: History<A>,
    repository: Repo,
}

impl<Repo, A, E, S> Browser<Repo, A, E, S>
    where
        S: Fn(&Repo, &History<A>) -> Result<Directory, E>,
 {
    /// A browser over `repository`, viewing `history`, rendering with `snapshot`.
    pub fn new(repository: Repo, history: History<A>, snapshot: S) -> (r: Self)
        ensures
            r.history() == history,
            r.repository() == repository,
            r.snapshot() == snapshot,
    {
        Browser { snapshot, history, repository }
    }

    /// The history being viewed.
    pub closed spec fn history(&self) -> History<A> {
        self.history
    }

    /// The repository.
    pub closed spec fn repository(&self) -> Repo {
        self.repository
    }

    /// The rendering function.
    pub closed spec fn snapshot(&self) -> S {
        self.snapshot
    }

    /// The repository being browsed.
    pub fn get_repository(&self) -> (r: &Repo)
        ensures
            *r == self.repository(),
    {
        &self.repository
    }

    /// A copy of the history being viewed.
    pub fn get_history(&self) -> (r: History<A>)
        where
            A: Clone,
        ensures
            all_cloned(self.history()@, r@),
    {
        self.history.clone()
    }

    /// Views `history` from now on.
    pub fn set_history(&mut self, history: History<A>)
        ensures
            final(self).history() == history,
            final(self).repository() == old(self).repository(),
            final(self).snapshot() == old(self).snapshot(),
    {
        self.history = history;
    }

    /// Renders the history being viewed.
    pub fn get_directory(&self) -> (r: Result<Directory, E>)
        requires
            self.snapshot().requires((&self.repository(), &self.history())),
        ensures
            self.snapshot().ensures((&self.repository(), &self.history()), r),
    {
        (self.snapshot)(&self.repository, &self.history)
    }

    /// Replaces the history being viewed by what `f` makes of it.
    pub fn modify_history<F>(&mut self, f: F)
        where
            F: Fn(&History<A>) -> History<A>,
        requires
            f.requires((&old(self).history(),)),
        ensures
            f.ensures((&old(self).history(),), final(self).history()),
            final(self).repository() == old(self).repository(),
            final(self).snapshot() == old(self).snapshot(),
    {
        let h = f(&self.history);
        self.history = h;
    }

    /// Views what `f` makes of the history being viewed, or
    /// `default_history` where `f` gives nothing.
    pub fn view_at<F>(&mut self, default_history: History<A>, f: F)
        where
            F: Fn(&History<A>) -> Option<History<A>>,
        requires
            f.requires((&old(self).history(),)),
        ensures
            exists|o: Option<History<A>>|
                f.ensures((&old(self).history(),), o) && final(self).history() == match o {
                    Some(h) => h,
                    None => default_history,
                },
            final(self).repository() == old(self).repository(),
            final(self).snapshot() == old(self).snapshot(),
    {
        let o = f(&self.history);
        let ghost og = o;
        let h = match o {
            Some(h) => h,
            None => default_history,
        };
        self.history = h;
        assert(f.ensures((&old(self).history(),), og));
    }
}

impl<Repo, A, E, S> VCS<A, E> for Browser<Repo, A, E, S>
    where
        Repo: VCS<A, E>,
        S: Fn(&Repo, &History<A>) -> Result<Directory, E>,
 {
    type HistoryId = Repo::HistoryId;

    type ArtefactId = Repo::ArtefactId;

    fn get_history(&self, identifier: Self::HistoryId) -> Result<History<A>, E> {
        self.repository.get_history(identifier)
    }

    fn get_histories(&self) -> Result<Vec<History<A>>, E> {
        self.repository.get_histories()
    }

    fn get_identifier(artifact: &A) -> Self::ArtefactId {
        Repo::get_identifier(artifact)
    }
}

} // verus!
