//! Derives a semantic version for a source tree from the version tags in its
//! git history: the nearest tagged ancestor of the current head wins, and
//! untagged commits on top of it are marked by a prerelease "height".

pub mod config;
pub mod error;
pub mod grammar;
pub mod minver_core;
pub mod repo;
pub mod semver;
pub mod tag_index;
pub mod walker;

pub use config::LogLevel;
pub use config::MinverConfig;
pub use error::MinverError;
pub use minver_core::get_version;
pub use semver::Level;
pub use semver::Level as SemVerLevel;
pub use semver::Version;
