//! Errors surfaced by the library.

use vstd::prelude::*;

verus! {

/// What can go wrong while loading or interpreting user input: the backing
/// store could not be read, or some text (the store's contents, a duration
/// string) did not parse.
#[derive(Clone, Copy, Debug, PartialEq, Eq, Structural)]
pub enum RemError {
    FileError,
    ParsingError,
}

} // verus!
