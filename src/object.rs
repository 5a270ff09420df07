//! Object kinds and the information shown alongside a tree or blob.

use vstd::prelude::*;

verus! {

/// Git object kinds that a tree listing shows.
#[derive(Debug, Clone, Copy, PartialEq, Eq, Structural)]
pub enum ObjectType {
    /// References a list of other trees and blobs.
    Tree,
    /// Used to store file data.
    Blob,
}

impl ObjectType {
    /// The name the kind is written under: `"TREE"` or `"BLOB"`.
    pub fn name(&self) -> (r: &'static str)
        ensures
            *self == ObjectType::Tree ==> r@ == "TREE"@,
            *self == ObjectType::Blob ==> r@ == "BLOB"@,
    {
        match self {
            ObjectType::Tree => "TREE",
            ObjectType::Blob => "BLOB",
        }
    }
}

/// The header of a revision: its identifier, author and message.
#[derive(Debug, Clone, PartialEq, Eq)]
pub struct Header {
    /// The identifier, in hexadecimal.
    pub sha1: String,
    pub author_name: String,
    pub author_email: String,
    pub summary: String,
    pub message: String,
    /// Seconds since the epoch.
    pub time: i64,
}

/// What is shown alongside a tree or blob.
#[derive(Debug, Clone, PartialEq, Eq)]
pub struct Info {
    /// Name part of an object.
    pub name: String,
    /// The kind of the object.
    pub object_type: ObjectType,
    /// The last revision that touched the object.
    pub last_commit: Option<Header>,
}

} // verus!
