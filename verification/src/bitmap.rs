use vstd::prelude::*;

use crate::error::OcrError;
use image::ImageFormat as F;

verus! {

/// Smallest accepted width or height, in pixels.
pub const MIN_DIM: u32 = 50;
/// Largest accepted width or height, in pixels.
pub const MAX_DIM: u32 = 10_000;

/// Both sides lie in `MIN_DIM..=MAX_DIM`.
pub open spec fn dims_ok(width: u32, height: u32) -> bool {
    MIN_DIM <= width <= MAX_DIM && MIN_DIM <= height <= MAX_DIM
}

/// Number of bytes of a four-channel image of the given size.
pub open spec fn buffer_len(width: u32, height: u32) -> int {
    width * height * 4
}

/// Checks that both sides of an image lie in `MIN_DIM..=MAX_DIM`.
pub fn validate_dimensions(width: u32, height: u32) -> (r: Result<(), OcrError>)
    ensures
        r is Ok <==> dims_ok(width, height),
        r matches Err(e) ==> e is ImageDimensions,
{
    if width < MIN_DIM || height < MIN_DIM || width > MAX_DIM || height > MAX_DIM {
        return Err(OcrError::ImageDimensions);
    }
    Ok(())
}

/// Checks that a pixel buffer holds exactly four bytes per pixel.
pub fn validate_buffer(width: u32, height: u32, data: &[u8]) -> (r: Result<(), OcrError>)
    requires
        buffer_len(width, height) <= usize::MAX,
    ensures
        r is Ok <==> data@.len() == buffer_len(width, height),
        r matches Err(e) ==> e == (OcrError::BufferSize {
            expected: buffer_len(width, height) as usize,
            actual: data@.len() as usize,
        }),
{
    proof {
        vstd::arithmetic::mul::lemma_mul_nonnegative(width as int, height as int);
    }
    assert(width * height <= width * height * 4) by (nonlinear_arith);
    let expected = width as usize * height as usize * 4;
    if data.len() != expected {
        return Err(OcrError::BufferSize { expected, actual: data.len() });
    }
    Ok(())
}

/// The bytes of `s` with the first and third byte of every complete group of
/// four exchanged (RGBA <-> BGRA); a trailing partial group is left as is.
pub open spec fn swap_red_blue(s: Seq<u8>) -> Seq<u8> {
    let full = s.len() - s.len() % 4;
    Seq::new(
        s.len(),
        |j: int|
            if j < full && j % 4 == 0 {
                s[j + 2]
            } else if j < full && j % 4 == 2 {
                s[j - 2]
            } else {
                s[j]
            },
    )
}

/// Exchanging the red and blue channels twice gives back the bytes: RGBA to
/// BGRA and back.
pub proof fn lemma_swap_red_blue_involution(s: Seq<u8>)
    ensures
        swap_red_blue(swap_red_blue(s)) == s,
        swap_red_blue(s).len() == s.len(),
{
    let t = swap_red_blue(s);
    let full = s.len() - s.len() % 4;
    assert forall|j: int| 0 <= j < s.len() implies #[trigger] swap_red_blue(t)[j] == s[j] by {
        if j < full && j % 4 == 0 {
            assert(j + 2 < full);
            assert((j + 2) % 4 == 2);
        } else if j < full && j % 4 == 2 {
            assert((j - 2) % 4 == 0);
        }
    }
    assert(swap_red_blue(t) =~= s);
}

/// What building an image of the given size from `given` bytes yields: the
/// size error first, then the buffer-length error, and otherwise an image of
/// that size holding `pixels`.
pub open spec fn image_outcome(
    r: Result<OcrImage, OcrError>,
    width: u32,
    height: u32,
    given: Seq<u8>,
    pixels: Seq<u8>,
) -> bool {
    if !dims_ok(width, height) {
        r == Err::<OcrImage, OcrError>(OcrError::ImageDimensions)
    } else if given.len() != buffer_len(width, height) {
        r == Err::<OcrImage, OcrError>(
            OcrError::BufferSize { expected: buffer_len(width, height) as usize, actual: given.len() as usize },
        )
    } else {
        r matches Ok(img) && img.spec_width() == width && img.spec_height() == height
            && img.pixels() == pixels
    }
}

/// A four-channel image in BGRA byte order, ready for the engine.
pub struct OcrImage {
    pub(crate) width: u32,
    pub(crate) height: u32,
    pub(crate) bgra_data: Vec<u8>,
}

impl OcrImage {
    #[verifier::type_invariant]
    spec fn well_formed(self) -> bool {
        &&& dims_ok(self.width, self.height)
        &&& self.bgra_data@.len() == buffer_len(self.width, self.height)
    }

    /// Width in pixels.
    pub closed spec fn spec_width(self) -> u32 {
        self.width
    }

    /// Height in pixels.
    pub closed spec fn spec_height(self) -> u32 {
        self.height
    }

    /// The pixel bytes, four per pixel, in BGRA order.
    pub closed spec fn pixels(self) -> Seq<u8> {
        self.bgra_data@
    }

    /// Create from raw BGRA pixel data.
    pub fn from_bgra(width: u32, height: u32, bgra_data: Vec<u8>) -> (r: Result<Self, OcrError>)
        ensures
            image_outcome(r, width, height, bgra_data@, bgra_data@),
    {
        validate_dimensions(width, height)?;
        assert(width * height * 4 <= 10_000 * 10_000 * 4) by (nonlinear_arith)
            requires width <= 10_000, height <= 10_000;
        validate_buffer(width, height, bgra_data.as_slice())?;
        Ok(Self { width, height, bgra_data })
    }

    /// Create from raw RGBA pixel data. Channels are swapped to BGRA internally.
    pub fn from_rgba(width: u32, height: u32, data: Vec<u8>) -> (r: Result<Self, OcrError>)
        ensures
            image_outcome(r, width, height, data@, swap_red_blue(data@)),
    {
        validate_dimensions(width, height)?;
        assert(width * height * 4 <= 10_000 * 10_000 * 4) by (nonlinear_arith)
            requires width <= 10_000, height <= 10_000;
        validate_buffer(width, height, data.as_slice())?;
        let mut data = data;
        let ghost orig = data@;
        let len = data.len();
        let mut i: usize = 0;
        while len - i >= 4
            invariant
                len == data@.len(),
                len == orig.len(),
                i % 4 == 0,
                i <= len,
                forall|j: int| 0 <= j < len && j < i ==> data@[j] == #[trigger] swap_red_blue(orig)[j],
                forall|j: int| i <= j < len ==> data@[j] == orig[j],
            decreases len - i,
        {
            let red = data[i];
            let blue = data[i + 2];
            data.set(i, blue);
            data.set(i + 2, red);
            i = i + 4;
        }
        assert(data@ =~= swap_red_blue(orig));
        Ok(Self { width, height, bgra_data: data })
    }

    /// Width in pixels.
    pub fn width(&self) -> (w: u32)
        ensures
            w == self.spec_width(),
    {
        self.width
    }

    /// Height in pixels.
    pub fn height(&self) -> (h: u32)
        ensures
            h == self.spec_height(),
    {
        self.height
    }

    /// The pixel bytes in BGRA order, four per pixel, row after row.
    pub fn bgra_data(&self) -> (d: &[u8])
        ensures
            d@ == self.pixels(),
    {
        self.bgra_data.as_slice()
    }
}

/// The image file formats that a file extension can name.
#[derive(Clone, Copy, Debug, PartialEq, Eq)]
pub enum ImageKind {
    Avif,
    Jpeg,
    Png,
    Gif,
    WebP,
    Tiff,
    Tga,
    Dds,
    Bmp,
    Ico,
    Hdr,
    OpenExr,
    Pnm,
    Farbfeld,
    Qoi,
}

/// `s` with every ASCII capital letter replaced by its small letter.
pub open spec fn ascii_lowercase(s: Seq<char>) -> Seq<char> {
    s.map_values(|c: char| if 'A' <= c && c <= 'Z' { ((c as u32) + 32) as char } else { c })
}

/// The format a file extension names, compared in small ASCII letters:
/// `avif`; `jpg`, `jpeg`, `jfif`; `png`, `apng`; `gif`; `webp`; `tif`,
/// `tiff`; `tga`; `dds`; `bmp`; `ico`; `hdr`; `exr`; `pbm`, `pam`, `ppm`,
/// `pgm`, `pnm`; `ff`; `qoi`. Any other extension names none.
pub open spec fn image_kind_of(ext: Seq<char>) -> Option<ImageKind> {
    let e = ascii_lowercase(ext);
    if e == seq!['a', 'v', 'i', 'f'] {
        Some(ImageKind::Avif)
    } else if e == seq!['j', 'p', 'g'] || e == seq!['j', 'p', 'e', 'g'] || e == seq!['j', 'f', 'i', 'f'] {
        Some(ImageKind::Jpeg)
    } else if e == seq!['p', 'n', 'g'] || e == seq!['a', 'p', 'n', 'g'] {
        Some(ImageKind::Png)
    } else if e == seq!['g', 'i', 'f'] {
        Some(ImageKind::Gif)
    } else if e == seq!['w', 'e', 'b', 'p'] {
        Some(ImageKind::WebP)
    } else if e == seq!['t', 'i', 'f'] || e == seq!['t', 'i', 'f', 'f'] {
        Some(ImageKind::Tiff)
    } else if e == seq!['t', 'g', 'a'] {
        Some(ImageKind::Tga)
    } else if e == seq!['d', 'd', 's'] {
        Some(ImageKind::Dds)
    } else if e == seq!['b', 'm', 'p'] {
        Some(ImageKind::Bmp)
    } else if e == seq!['i', 'c', 'o'] {
        Some(ImageKind::Ico)
    } else if e == seq!['h', 'd', 'r'] {
        Some(ImageKind::Hdr)
    } else if e == seq!['e', 'x', 'r'] {
        Some(ImageKind::OpenExr)
    } else if e == seq!['p', 'b', 'm'] || e == seq!['p', 'a', 'm'] || e == seq!['p', 'p', 'm'] || e
        == seq!['p', 'g', 'm'] || e == seq!['p', 'n', 'm'] {
        Some(ImageKind::Pnm)
    } else if e == seq!['f', 'f'] {
        Some(ImageKind::Farbfeld)
    } else if e == seq!['q', 'o', 'i'] {
        Some(ImageKind::Qoi)
    } else {
        None
    }
}

/// How a file of the given format has to begin for its decoder to accept it:
/// PNG with its eight-byte signature, JPEG with the start-of-image marker
/// `FF D8`, GIF with `GIF87a` or `GIF89a`, WebP with `RIFF`, a size and
/// `WEBP`, TIFF with the byte-order mark `II` or `MM`, BMP with `BM`. Of the
/// other formats nothing is required.
pub open spec fn begins_as(kind: ImageKind, b: Seq<u8>) -> bool {
    match kind {
        ImageKind::Png => b.len() >= 8 && b.take(8) == seq![137u8, 80, 78, 71, 13, 10, 26, 10],
        ImageKind::Jpeg => b.len() >= 2 && b[0] == 0xFF && b[1] == 0xD8,
        ImageKind::Gif => b.len() >= 6 && (b.take(6) == seq![71u8, 73, 70, 56, 55, 97] || b.take(6)
            == seq![71u8, 73, 70, 56, 57, 97]),
        ImageKind::WebP => b.len() >= 12 && b.take(4) == seq![82u8, 73, 70, 70] && b.subrange(8, 12)
            == seq![87u8, 69, 66, 80],
        ImageKind::Tiff => b.len() >= 2 && (b.take(2) == seq![73u8, 73] || b.take(2) == seq![77u8, 77]),
        ImageKind::Bmp => b.len() >= 2 && b[0] == 66 && b[1] == 77,
        _ => true,
    }
}

/// Calls `image::ImageFormat::from_extension` and gives the format it names
/// as an `ImageKind`. Claimed: the result is `image_kind_of` the extension
/// (the crate matches the extension, made small with `to_ascii_lowercase`,
/// against a fixed list). The last arm maps formats that no extension names
/// (a hidden, deprecated one) to `None`.
#[verifier::external_body]
fn format_from_extension(ext: &str) -> (r: Option<ImageKind>)
    ensures
        r == image_kind_of(ext@),
{
    let f = F::from_extension(ext)?;
    Some(match f {
        F::Avif => ImageKind::Avif, F::Jpeg => ImageKind::Jpeg, F::Png => ImageKind::Png,
        F::Gif => ImageKind::Gif, F::WebP => ImageKind::WebP, F::Tiff => ImageKind::Tiff,
        F::Tga => ImageKind::Tga, F::Dds => ImageKind::Dds, F::Bmp => ImageKind::Bmp,
        F::Ico => ImageKind::Ico, F::Hdr => ImageKind::Hdr, F::OpenExr => ImageKind::OpenExr,
        F::Pnm => ImageKind::Pnm, F::Farbfeld => ImageKind::Farbfeld, F::Qoi => ImageKind::Qoi,
        _ => return None,
    })
}

/// Calls `image::load_from_memory` (format guessed from the content) and
/// converts the result with `DynamicImage::to_rgba8` into width, height and
/// RGBA bytes. Nothing is claimed of the outcome: the guess consults hooks
/// that any code in the process may register, the JPEG decoder picks its
/// transform by the CPU it runs on, and the size of the buffer is not pinned
/// by the documentation. Not claimed either: that the call returns (it reads
/// the hook lists with `unwrap` on their locks).
#[verifier::external_body]
fn decode_guessed(bytes: &[u8]) -> (r: Result<(u32, u32, Vec<u8>), image::ImageError>) {
    match image::load_from_memory(bytes) {
        Ok(img) => {
            let rgba = img.to_rgba8();
            Ok((rgba.width(), rgba.height(), rgba.into_raw()))
        },
        Err(e) => Err(e),
    }
}

/// Whether decoding `bytes` as a file of format `kind` succeeds, and if so the
/// width and height of the decoded image.
pub uninterp spec fn decoded_size(kind: ImageKind, bytes: Seq<u8>) -> Option<(u32, u32)>;

/// Calls `image::load_from_memory_with_format` with the format `kind` names
/// and converts the result with `DynamicImage::to_rgba8` into width, height
/// and RGBA bytes. Claimed: whether it succeeds, and the size it gives, are
/// the named function `decoded_size` of the format and the bytes (with an
/// explicit format the crate consults no decoding hooks and uses its fixed
/// default limits); and the decoder of that format accepted the bytes only if
/// they begin as `begins_as` says (the PNG, JPEG, GIF, WebP, TIFF and BMP
/// decoders each check these bytes first and fail otherwise). Not claimed:
/// which pixel bytes come back (the JPEG decoder picks its transform by the
/// CPU it runs on, and the documentation does not pin the length of the
/// buffer), which error comes back, nor that the decoders never panic.
#[verifier::external_body]
fn decode_as(bytes: &[u8], kind: ImageKind) -> (r: Result<(u32, u32, Vec<u8>), image::ImageError>)
    ensures
        r is Ok <==> decoded_size(kind, bytes@) is Some,
        r matches Ok((w, h, _)) ==> decoded_size(kind, bytes@) == Some((w, h)),
        r is Ok ==> begins_as(kind, bytes@),
{
    let format = match kind {
        ImageKind::Avif => F::Avif, ImageKind::Jpeg => F::Jpeg, ImageKind::Png => F::Png,
        ImageKind::Gif => F::Gif, ImageKind::WebP => F::WebP, ImageKind::Tiff => F::Tiff,
        ImageKind::Tga => F::Tga, ImageKind::Dds => F::Dds, ImageKind::Bmp => F::Bmp,
        ImageKind::Ico => F::Ico, ImageKind::Hdr => F::Hdr, ImageKind::OpenExr => F::OpenExr,
        ImageKind::Pnm => F::Pnm, ImageKind::Farbfeld => F::Farbfeld, ImageKind::Qoi => F::Qoi,
    };
    let rgba = image::load_from_memory_with_format(bytes, format)?.to_rgba8();
    Ok((rgba.width(), rgba.height(), rgba.into_raw()))
}

/// Builds the error `image::ImageReader::decode` reports when no format is
/// known: `ImageError::Unsupported` made by `UnsupportedError::from_format_and_kind`
/// with an unknown format hint. Nothing is claimed of the value.
#[verifier::external_body]
fn unknown_format_error() -> (e: image::ImageError) {
    image::ImageError::Unsupported(image::error::UnsupportedError::from_format_and_kind(
        image::error::ImageFormatHint::Unknown,
        image::error::UnsupportedErrorKind::Format(image::error::ImageFormatHint::Unknown),
    ))
}

/// Builds the error `image::ImageReader::decode` reports for an extension that
/// names no format: `ImageError::Unsupported` from the hint
/// `ImageFormatHint::PathExtension` holding the extension. Nothing is claimed
/// of the value.
#[verifier::external_body]
fn unsupported_extension_error(ext: &str) -> (e: image::ImageError) {
    image::ImageError::Unsupported(image::error::ImageFormatHint::PathExtension(ext.into()).into())
}

/// What every image built from decoded bytes satisfies, whatever the decoder
/// gave: an error is a decoding, size or buffer error, and an image has both
/// sides within limits and four bytes per pixel.
pub open spec fn decode_outcome(r: Result<OcrImage, OcrError>) -> bool {
    match r {
        Ok(img) => dims_ok(img.spec_width(), img.spec_height()) && img.pixels().len()
            == buffer_len(img.spec_width(), img.spec_height()),
        Err(e) => e is Image || e is ImageDimensions || e is BufferSize,
    }
}

impl OcrImage {
    /// Build the image from what a decoder gave: decoded RGBA pixels go
    /// through `from_rgba`, and a decoding error becomes `OcrError::Image`.
    pub fn from_decoded(decoded: Result<(u32, u32, Vec<u8>), image::ImageError>) -> (r: Result<Self, OcrError>)
        ensures
            match decoded {
                Ok((w, h, d)) => image_outcome(r, w, h, d@, swap_red_blue(d@)),
                Err(e) => r == Err::<OcrImage, OcrError>(OcrError::Image(e)),
            },
            decode_outcome(r),
    {
        match decoded {
            Ok((w, h, d)) => Self::from_rgba(w, h, d),
            Err(e) => Err(OcrError::Image(e)),
        }
    }

    /// Decode an image from in-memory bytes, its format guessed from the
    /// content, and build it with `from_decoded`.
    pub fn from_bytes(bytes: &[u8]) -> (r: Result<Self, OcrError>)
        ensures
            decode_outcome(r),
    {
        Self::from_decoded(decode_guessed(bytes))
    }

    /// Decode the bytes of an image file in the format its extension names
    /// (the part of the file name after the last dot, without the dot), and
    /// build the image with `from_decoded`. An empty extension, or one that
    /// names no format, is a decoding error; so is bytes that the decoder of
    /// the named format refuses. Otherwise the decoded size decides: outside
    /// the limits it is a size error, within them an image of that size (or a
    /// buffer error should the decoder's buffer not hold four bytes per
    /// pixel). An image comes back only from bytes that begin as a file of
    /// the named format must.
    pub fn from_encoded(bytes: &[u8], extension: &str) -> (r: Result<Self, OcrError>)
        ensures
            decode_outcome(r),
            match image_kind_of(extension@) {
                None => r matches Err(e) && e is Image,
                Some(kind) => {
                    &&& r is Ok ==> begins_as(kind, bytes@)
                    &&& match decoded_size(kind, bytes@) {
                        None => r matches Err(e) && e is Image,
                        Some((w, h)) => {
                            &&& !dims_ok(w, h) ==> r == Err::<OcrImage, OcrError>(OcrError::ImageDimensions)
                            &&& dims_ok(w, h) ==> (r is Ok || (r matches Err(e) && e is BufferSize))
                            &&& r matches Ok(img) ==> img.spec_width() == w && img.spec_height() == h
                        },
                    }
                },
            },
    {
        if extension.is_empty() {
            proof {
                assert(ascii_lowercase(extension@) =~= Seq::<char>::empty());
            }
            return Err(OcrError::Image(unknown_format_error()));
        }
        match format_from_extension(extension) {
            None => Err(OcrError::Image(unsupported_extension_error(extension))),
            Some(kind) => Self::from_decoded(decode_as(bytes, kind)),
        }
    }
}

} // verus!
