//! Startup configuration: the resolved data directory and the paths
//! derived from it.
//!
//! The paths are fixed when the configuration is constructed and passed
//! into every operation that needs them, instead of living in a
//! process-wide cache: a second construction is simply a second value,
//! and nothing can observe a half-initialized state.

use vstd::prelude::*;
use vstd::string::StringExecFns;

verus! {

/// Where the store keeps its pieces: the database file and the note-body
/// directory, both under one data directory.
pub struct AppPaths {
    pub data_dir: String,
    pub db_file: String,
    pub notes_dir: String,
}

/// The database file path a data directory determines.
pub open spec fn spec_db_path(data_dir: Seq<char>) -> Seq<char> {
    data_dir + "/db.sqlite"@
}

/// The note-body directory a data directory determines.
pub open spec fn spec_notes_dir(data_dir: Seq<char>) -> Seq<char> {
    data_dir + "/notes"@
}

impl AppPaths {
    pub open spec fn wf(&self) -> bool {
        &&& self.db_file@ == spec_db_path(self.data_dir@)
        &&& self.notes_dir@ == spec_notes_dir(self.data_dir@)
    }

    /// Resolves the layout under a data directory.
    pub fn new(data_dir: String) -> (r: AppPaths)
        ensures
            r.wf(),
            r.data_dir@ == data_dir@,
    {
        let mut db_file = data_dir.clone();
        db_file.append("/db.sqlite");
        let mut notes_dir = data_dir.clone();
        notes_dir.append("/notes");
        AppPaths { data_dir, db_file, notes_dir }
    }

    /// The database file, directly under the data directory.
    pub fn db_path(&self) -> (r: &String)
        ensures
            r@ == self.db_file@,
            self.wf() ==> r@ == spec_db_path(self.data_dir@),
    {
        &self.db_file
    }
}

} // verus!
