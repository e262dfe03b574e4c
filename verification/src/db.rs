//! The handle of the library's SQLite database: where its file lies.
use std::path::PathBuf;
use vstd::prelude::*;

verus! {

/// `std::path::PathBuf`, carried through as the database file's location.
#[verifier::external_type_specification]
#[verifier::external_body]
pub struct ExPathBuf(PathBuf);

/// The database, known by the path of its file. Opening connections and creating
/// the schema are done by the application around this library.
pub struct Database {
    path: PathBuf,
}

impl Database {
    /// Where the database file lies.
    pub closed spec fn location(&self) -> PathBuf {
        self.path
    }

    /// A handle on the database file at `path`.
    pub fn new(path: PathBuf) -> (r: Database)
        ensures
            r.location() == path,
    {
        Database { path }
    }

    /// The path of the database file.
    pub fn path(&self) -> (r: &PathBuf)
        ensures
            *r == self.location(),
    {
        &self.path
    }
}

} // verus!
