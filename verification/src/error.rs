//! Typed failures of the library.

use vstd::prelude::*;

verus! {

/// `ParseStrError` reports a malformed textual pinyin encoding and
/// carries the offending input; `BuildError` reports that a search
/// automaton could not be compiled from dictionary data.
#[derive(Debug)]
pub enum PingyinError {
    ParseStrError(String),
    BuildError,
}

} // verus!
