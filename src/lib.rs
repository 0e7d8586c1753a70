//! Keyboard-driven selection of interesting substrings (addresses, hashes,
//! paths) from captured terminal text: scanning, hint codes, and the
//! interactive selection state machine.

pub mod hints;
pub mod picker;
pub mod scan;

