//! Local media-browsing core: procedural texture buffers, filtered and
//! case-insensitively sorted directory and photo listings, and bounded-size
//! thumbnail generation.

pub mod listing;
pub mod order;
pub mod texture;
pub mod thumb;

use vstd::prelude::*;

verus! {

/// The error taxonomy shared by every operation of this crate.
#[derive(Clone, Copy, Debug, PartialEq, Eq, Structural)]
pub enum MediaError {
    /// A caller-supplied argument is invalid (for example a zero square size).
    InvalidArgument,
    /// The requested path does not exist.
    NotFound,
    /// The path exists but is not a directory.
    NotADirectory,
    /// The path exists but is not a regular file.
    NotAFile,
    /// The top-level directory read failed.
    IoError,
    /// The bytes could not be parsed as a supported raster image.
    DecodeError,
    /// Re-encoding the thumbnail failed.
    EncodeError,
}

} // verus!
