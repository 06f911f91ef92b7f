//! The three operations the command surface can request.
use vstd::prelude::*;

verus! {

/// A parsed command: persist a dictionary built from a word list, search with
/// a previously persisted dictionary, or build and search in one run.
pub enum Arguments {
    /// Word-list source and persisted-dictionary destination.
    Dump(String, String),
    /// Persisted-dictionary source.
    Load(String),
    /// Word-list source.
    Dync(String),
}

} // verus!
