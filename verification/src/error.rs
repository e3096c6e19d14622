//! The typed errors of the library: each fatal failure kind gets its own
//! variant, so callers can tell them apart.

use vstd::prelude::*;

verus! {

/// Everything that can make version resolution fail.
#[derive(Debug)]
pub enum MinverError {
    /// A version text does not match the SemVer 2.0 grammar, or one of its
    /// numeric fields does not fit in `u32`.
    InvalidVersion,
    /// A configured build-metadata value fails the build-metadata grammar.
    InvalidBuildMetadata,
    /// A configured prerelease identifier fails the prerelease grammar.
    InvalidPrereleaseIdentifier,
    /// A configured log level is not one of the known level names.
    InvalidLogLevel,
    /// A configured auto-increment level is not Major, Minor or Patch.
    InvalidLevel,
    /// A version component or the walk depth would exceed `u32::MAX`.
    Overflow,
    /// The repository could not be read.
    Repository(git2::Error),
}

} // verus!
