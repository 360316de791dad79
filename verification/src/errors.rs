//! The failure cases of shebang processing. Every error is fatal for the
//! run: nothing is retried and nothing is partially applied.

use vstd::prelude::*;

verus! {

#[derive(Debug)]
pub enum PatchError {
    /// The named program was not found in any search-path directory.
    NotFound { program: Vec<u8> },
    /// An `env` shebang names no program to run (a bare `env`, or `-S`
    /// with nothing after it).
    InvalidShebang { line: Vec<u8> },
    /// An `env` shebang uses a flag form other than `-S`, which this
    /// library declines to interpret.
    UnsupportedShebang { line: Vec<u8> },
}

} // verus!
