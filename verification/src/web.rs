//! Boundary records of the review front end.
//!
//! The web layer itself — routing, HTML rendering, the store — is a
//! collaborator outside the codec; the library holds the plain values
//! that cross the boundary.

use vstd::prelude::*;

verus! {

/// One review row: a line's address, speaker and original text, the
/// machine translation used as a control, and the current candidate.
#[derive(Clone, Debug)]
pub struct Row {
    pub address: u32,
    pub speaker: String,
    pub original: String,
    pub control: String,
    pub current: String,
}

/// Whether a request came from the page's own script rather than a full
/// navigation.
#[derive(Clone, Copy, Debug, PartialEq, Eq, Structural)]
pub struct IsHtmx(pub bool);

/// The view configuration: the URL prefixes the rendered page links rows
/// and their editors under.
#[derive(Clone, Debug)]
pub struct View {
    pub current: String,
    pub edit_current: String,
}

impl View {
    /// A view over the given URL prefixes.
    pub fn new(current: String, edit_current: String) -> (r: View)
        ensures
            r.current == current,
            r.edit_current == edit_current,
    {
        View { current, edit_current }
    }
}

} // verus!
