//! Errors reported by the library.

use vstd::prelude::*;

verus! {

/// Why a save could not be read or edited.
#[derive(Debug)]
pub enum Error {
    /// A file could not be read or written.
    Io(String),
    /// The bytes are not a recognizable Bellwright save.
    BadFile(String),
    /// A chunk could not be decompressed, or the chunks do not add up.
    Decompress(String),
    /// The number of candidate gold records found (0 or more than 1).
    GoldNotFound(usize),
    /// The number of candidate renown records found (0 or more than 1).
    RenownNotFound(usize),
    /// The protobuf payload does not have the expected structure.
    ParseError(String),
    /// The edit is not supported (it would change the chunk count).
    TooLarge(String),
}

} // verus!
