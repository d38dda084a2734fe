//! The script bytecode format ("STCM2"): structural decode and encode of
//! one script blob, dialogue extraction, and the patch engine that swaps
//! translated text in while preserving every internal pointer.

pub mod format;
pub mod parse;
pub mod patch;
