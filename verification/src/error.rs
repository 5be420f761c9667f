//! The error vocabulary of the collection core.

use vstd::prelude::*;

verus! {

/// Every failure the collection core can surface. Translation failures
/// (`MountNotFound`, `PathEscapesMount`, `PathNotMounted`) are hard errors:
/// they are never conflated with an empty or missing directory, since that
/// would weaken the containment guarantee of the mount table.
#[derive(Clone, Copy, Debug, PartialEq, Eq, Structural)]
pub enum PError {
    /// No mount point exists for the requested name, or a directory to be
    /// mounted does not exist.
    MountNotFound,
    /// The path given to `mount` exists but is not a directory.
    MountNotADirectory,
    /// A virtual path would resolve outside its mount's real root.
    PathEscapesMount,
    /// A real path lies under no registered mount root.
    PathNotMounted,
    /// A path could not be represented as text.
    PathDecoding,
    /// An underlying filesystem operation failed.
    IOError,
    /// The source image could not be decoded.
    ImageDecodeError,
    /// The derived thumbnail could not be encoded.
    ImageEncodeError,
    /// The configuration file could not be opened.
    ConfigFileOpenError,
    /// The configuration file could not be read.
    ConfigFileReadError,
    /// The configuration file could not be parsed.
    ConfigFileParseError,
    /// The mount directory list in the configuration is malformed.
    ConfigMountDirsParseError,
}

} // verus!
