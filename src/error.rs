use vstd::prelude::*;

verus! {

/// The ways a resize run can fail. Every one of them ends the run.
#[derive(Debug, Clone, Copy, PartialEq, Eq, Structural)]
pub enum ResizeError {
    /// The input path is neither an existing file nor an existing directory.
    InvalidInputPath,
    /// The size expression matches neither `PERCENT%` nor `WIDTHxHEIGHT`.
    InvalidSizeFormat,
    /// A `WIDTHxHEIGHT` side is not a non-negative integer that fits in `u32`.
    InvalidDimension,
    /// The codec could not read the source image.
    DecodeFailure,
    /// The codec could not write the destination image.
    EncodeFailure,
    /// Creating a directory, listing one, or reading metadata failed.
    FilesystemFailure,
}

} // verus!
