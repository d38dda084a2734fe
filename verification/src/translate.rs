//! Boundary records of the translation providers.
//!
//! The providers themselves — remote services and local completion
//! servers — are collaborators outside the codec; the library holds only
//! the plain values that cross the boundary: a provider session and the
//! (speaker, text) pairs handed over for translation.

use vstd::prelude::*;

verus! {

/// A translation provider handle: the session label its candidate
/// translations are stored under.
#[derive(Clone, Debug)]
pub struct Translator {
    pub session: String,
}

impl Translator {
    /// A provider handle for one session.
    pub fn new(session: String) -> (r: Translator)
        ensures
            r.session == session,
    {
        Translator { session }
    }
}

/// One line handed to a provider: its speaker and its original text.
#[derive(Clone, Debug)]
pub struct Line {
    pub speaker: String,
    pub orig: String,
}

} // verus!
