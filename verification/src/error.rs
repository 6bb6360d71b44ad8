use vstd::prelude::*;

verus! {

/// Outside error type of the `image` crate, carried through unchanged.
#[verifier::external_type_specification]
#[verifier::external_body]
pub struct ExImageError(image::ImageError);

/// Outside error type of the `libloading` crate, carried through unchanged.
#[verifier::external_type_specification]
#[verifier::external_body]
pub struct ExLibloadingError(libloading::Error);

/// Everything that can go wrong while preparing an image or driving the engine.
#[derive(Debug)]
pub enum OcrError {
    /// The engine library could not be loaded; the loader's error.
    LibraryLoad(libloading::Error),
    /// An export the engine must provide is missing.
    MissingSymbol { name: &'static str },
    /// No usable engine directory was found.
    EngineNotFound { hint: String },
    /// An engine call returned a non-zero status.
    DllCall { operation: &'static str, code: i64 },
    /// The image could not be decoded.
    Image(image::ImageError),
    /// A side of the image lies outside `MIN_DIM..=MAX_DIM`.
    ImageDimensions,
    /// The pixel buffer does not hold exactly four bytes per pixel.
    BufferSize { expected: usize, actual: usize },
    /// The clipboard could not be read or written.
    Clipboard(String),
    /// Copying the engine files failed.
    SetupFailed { hint: String },
    /// A path handed to the engine held a NUL byte. (The error of the
    /// conversion, a `std::ffi` type, is not carried.)
    NulInPath,
}

} // verus!
