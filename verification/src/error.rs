use vstd::prelude::*;

verus! {

/// The failure taxonomy shared by the journal and the storage backends.
#[derive(Debug)]
pub enum Error {
    /// The referenced bucket, object or key does not exist; returned by
    /// lookups and deletes.
    NotFound(String),
    /// A create, or a create-only commit, targeted a name that already
    /// exists; returned by bucket creation and by uploader commit.
    AlreadyExists(String),
    /// An opaque failure surfaced from the underlying journal or storage
    /// medium; never interpreted by the core, only propagated.
    Backend(String),
}

impl Error {
    pub fn is_not_found(&self) -> (r: bool)
        ensures
            r == (self is NotFound),
    {
        matches!(self, Error::NotFound(_))
    }

    pub fn is_already_exists(&self) -> (r: bool)
        ensures
            r == (self is AlreadyExists),
    {
        matches!(self, Error::AlreadyExists(_))
    }
}

} // verus!
