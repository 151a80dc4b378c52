//! The library's fatal errors.

use vstd::prelude::*;

verus! {

/// A fatal error of a changelog run.
#[derive(Clone, Debug, Eq, PartialEq)]
pub enum Error {
    /// The directory the run was started in is no repository.
    NoGitRepository { path: String },
}

} // verus!
