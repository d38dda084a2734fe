//! Codec library for a visual-novel script container: a sector-addressed
//! archive format ("UNI2") holding script blobs, and the script bytecode
//! format ("STCM2") with its address-relocating encoder, dialogue
//! extraction, and a patch engine that re-injects translated text.

use vstd::prelude::*;

pub mod words;
pub mod uni;
pub mod stcm2;
pub mod sjis;
pub mod biendian;
pub mod cli;
pub mod translate;
pub mod web;
pub mod characters;

verus! {

/// Errors surfaced by the codec layers.
///
/// Structural violations are fatal for the whole document or archive that
/// produced them; the payload, where present, is the offending address.
#[derive(Clone, Copy, Debug, PartialEq, Eq, Structural)]
pub enum Error {
    /// Magic mismatch, bad reserved field, malformed parameter encoding,
    /// or inconsistent directory table.
    Format,
    /// Fewer bytes were available than a size field declared.  Carries
    /// the entry id when extracting an archive entry; elsewhere the byte
    /// offset up to which input was needed, saturated to 32 bits.
    Truncated(u32),
    /// Bytes were not valid in the source text encoding.
    Encoding,
    /// The two redundant length fields of a string record disagree, or
    /// bytes are left over after the declared length.
    Structure,
    /// Encoding a document left a reference to an address that is not in
    /// the document.
    Unresolved,
    /// A translation was supplied for this address but no dialogue window
    /// was ever matched against it.
    UnmatchedTranslation(u32),
    /// A speaker action arrived at this address while another buffering
    /// window was still open.
    OverlappingWindow(u32),
    /// The scan ended while the buffering window at this address was
    /// still open.
    UnclosedWindow(u32),
    /// The speaker name at this address is not in the replacement table.
    UnknownSpeaker(u32),
    /// A value did not fit in the 32-bit field the format stores it in.
    Overflow,
}

} // verus!
