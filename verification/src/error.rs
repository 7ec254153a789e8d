//! Error type shared by the parsing entry points.

use vstd::prelude::*;

verus! {

/// A failure of one of the text parsers. Every variant carries the raw
/// text that could not be handled, so callers can report it.
#[derive(Debug, Clone)]
pub enum Error {
    /// The memory-mapping listing had no header line, a data line with too
    /// few columns, or is otherwise malformed.
    MappedFilesParse(String),
    /// No stack-trace line grammar matched the given line.
    StacktraceParse(String),
    /// A numeric field matched a grammar but its value does not fit in the
    /// target integer type.
    NumberParse(String),
}

impl Error {
    /// The raw text the failing parser was given.
    pub fn text(&self) -> (r: &String)
        ensures
            r@ == self.text_spec(),
    {
        match self {
            Error::MappedFilesParse(s) => s,
            Error::StacktraceParse(s) => s,
            Error::NumberParse(s) => s,
        }
    }

    /// The text carried by any variant.
    pub open spec fn text_spec(&self) -> Seq<char> {
        match self {
            Error::MappedFilesParse(s) => s@,
            Error::StacktraceParse(s) => s@,
            Error::NumberParse(s) => s@,
        }
    }
}

} // verus!
