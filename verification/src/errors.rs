use vstd::prelude::*;

verus! {

/// The recoverable failures a list operation can report.
#[derive(Debug, PartialEq, Eq, Structural)]
pub enum Error {
    /// A backing store already exists where a new one was to be created.
    FileExists,
    /// A display index outside `1..=length` was handed to `check` or `remove`.
    IndexOutOfBounds,
}

/// A line of store text that does not have the shape `"<marker> <text>"`.
#[derive(Debug, PartialEq, Eq, Structural)]
pub struct ParseError;

} // verus!
