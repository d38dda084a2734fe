//! Plain argument records for the command front ends.
//!
//! The command-line layer holds clap-derived copies of this record and
//! converts; the library itself sees only plain values.

use vstd::prelude::*;

verus! {

/// What the commands are invoked with: the archive path, the script id
/// they work on, and whether the database is left untouched.
#[derive(Clone, Debug)]
pub struct Args {
    pub uni: String,
    pub id: u32,
    pub dry_run: bool,
}

impl Args {
    /// Bundles the invocation values.
    pub fn new(uni: String, id: u32, dry_run: bool) -> (r: Args)
        ensures
            r.uni == uni,
            r.id == id,
            r.dry_run == dry_run,
    {
        Args { uni, id, dry_run }
    }
}

} // verus!
