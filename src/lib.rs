//! A read-only browsing layer over a commit-graph version-control store:
//! validated paths, directory trees built from flat listings, histories of
//! revisions, ancestry traversal with a per-path last-touch index, and a
//! structured diff model.

pub mod ancestry;
pub mod diff;
pub mod directory;
pub mod forest;
pub mod history;
pub mod object;
pub mod path;
pub mod reference;
pub mod vcs;
