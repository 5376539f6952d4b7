//! The PNG image in an OpenRaster file.

use vstd::prelude::*;

use image::codecs::png::PngDecoder;
use image::error::LimitErrorKind as PngLimit;
use image::{ImageDecoder, ImageError as PngError};
use std::io::{Cursor, ErrorKind};

use crate::types;
use crate::types::{ByteOrder, ColorType, ImageLayout, LimitErrorKind, Limits};

verus! {

/// What the PNG decoder reports.
#[derive(Debug, PartialEq, Eq)]
pub enum PngProblem {
    /// The image is not in the form that the format asks for; the text says why.
    Decoding(String),
    /// The decoder was misused; the text says how.
    Parameter(String),
    /// A limit was exceeded.
    Limits(LimitErrorKind),
    /// A feature that is not supported; the text says which.
    Unsupported(String),
    /// The bytes ended too early.
    Eof,
    /// The bytes could not be read, with an error of this kind; the text says why.
    Io(ErrorKind, String),
}

/// What the PNG decoder reports, in terms of what texts say.
pub enum PngFault {
    Decoding(Seq<char>),
    Parameter(Seq<char>),
    Limits(LimitErrorKind),
    Unsupported(Seq<char>),
    Eof,
    Io(ErrorKind, Seq<char>),
}

impl PngProblem {
    /// What the problem is.
    pub open spec fn fault(self) -> PngFault {
        match self {
            PngProblem::Decoding(text) => PngFault::Decoding(text@),
            PngProblem::Parameter(text) => PngFault::Parameter(text@),
            PngProblem::Limits(kind) => PngFault::Limits(kind),
            PngProblem::Unsupported(text) => PngFault::Unsupported(text@),
            PngProblem::Eof => PngFault::Eof,
            PngProblem::Io(kind, text) => PngFault::Io(kind, text@),
        }
    }
}

/// The size of an image, and how many channels and bytes its pixels have.
#[derive(Debug, Clone, Copy, PartialEq, Eq, Structural)]
pub struct PngHeader {
    pub width: u32,
    pub height: u32,
    pub channels: u8,
    pub pixel_bytes: u8,
}

impl PngHeader {
    /// The colour type of the image.
    pub open spec fn color(self) -> ColorType {
        if self.pixel_bytes == self.channels {
            if self.channels == 1 {
                ColorType::L8
            } else if self.channels == 2 {
                ColorType::La8
            } else if self.channels == 3 {
                ColorType::Rgb8
            } else {
                ColorType::Rgba8
            }
        } else {
            if self.channels == 1 {
                ColorType::L16
            } else if self.channels == 2 {
                ColorType::La16
            } else if self.channels == 3 {
                ColorType::Rgb16
            } else {
                ColorType::Rgba16
            }
        }
    }

    /// The layout of the image.
    pub open spec fn layout(self) -> ImageLayout {
        ImageLayout { color: self.color(), width: self.width, height: self.height }
    }

    /// The layout of the image.
    pub fn image_layout(&self) -> (r: ImageLayout)
        ensures
            r == self.layout(),
    {
        let color = if self.pixel_bytes == self.channels {
            if self.channels == 1 {
                ColorType::L8
            } else if self.channels == 2 {
                ColorType::La8
            } else if self.channels == 3 {
                ColorType::Rgb8
            } else {
                ColorType::Rgba8
            }
        } else {
            if self.channels == 1 {
                ColorType::L16
            } else if self.channels == 2 {
                ColorType::La16
            } else if self.channels == 3 {
                ColorType::Rgb16
            } else {
                ColorType::Rgba16
            }
        };
        ImageLayout { color, width: self.width, height: self.height }
    }
}

/// An error of the `image` crate.
#[verifier::external_type_specification]
#[verifier::external_body]
pub struct ExPngError(image::ImageError);

/// What an error reports.
pub uninterp spec fn png_fault(e: image::ImageError) -> PngFault;

/// Tells the variants of `image::ImageError` apart, and calls `to_string` on what they hold. What
/// comes of that depends on the error alone.
#[verifier::external_body]
pub(crate) fn describe(e: image::ImageError) -> (r: PngProblem)
    ensures
        r.fault() == png_fault(e),
{
    match e {
        PngError::Decoding(e) => PngProblem::Decoding(e.to_string()),
        PngError::Limits(e) => match e.kind() {
            PngLimit::DimensionError => PngProblem::Limits(LimitErrorKind::DimensionError),
            _ => PngProblem::Limits(LimitErrorKind::InsufficientMemory),
        },
        PngError::Unsupported(e) => PngProblem::Unsupported(format!("{:?}", e.kind())),
        PngError::IoError(e) => match e.kind() {
            ErrorKind::UnexpectedEof => PngProblem::Eof,
            kind => PngProblem::Io(kind, e.to_string()),
        },
        e => PngProblem::Parameter(e.to_string()),
    }
}

/// What the header of an image says, on a machine whose lengths have so many bits: images that are
/// too large for it are refused.
pub uninterp spec fn png_header(png: Seq<u8>, limits: Limits, bits: u32) -> Result<
    PngHeader,
    PngFault,
>;

/// Calls `image::codecs::png::PngDecoder::with_limits`, and asks the decoder for the size and the
/// colour type. They depend on the image, the limits and the length of a `usize`. Pixels have one to
/// four channels, with one or two bytes each, and the size is within the limits.
#[verifier::external_body]
pub(crate) fn decode_header(png: &[u8], limits: Limits) -> (r: Result<PngHeader, image::ImageError>)
    ensures
        png_header(png@, limits, usize::BITS) == (match r {
            Ok(header) => Ok(header),
            Err(e) => Err(png_fault(e)),
        }),
        r matches Ok(header) ==> {
            &&& 1 <= header.channels <= 4
            &&& header.pixel_bytes == header.channels || header.pixel_bytes == 2 * header.channels
            &&& limits.allows_dimensions(header.width, header.height)
        },
{
    let mut l = image::Limits::no_limits();
    l.max_image_width = limits.max_image_width;
    l.max_image_height = limits.max_image_height;
    l.max_alloc = limits.max_alloc;
    PngDecoder::with_limits(Cursor::new(png), l).map(|d| PngHeader {
        width: d.dimensions().0,
        height: d.dimensions().1,
        channels: d.color_type().channel_count(),
        pixel_bytes: d.color_type().bytes_per_pixel(),
    })
}

/// Metadata, as far as there is any.
pub open spec fn found(r: Result<Option<Vec<u8>>, image::ImageError>) -> Result<
    Option<Seq<u8>>,
    PngFault,
> {
    match r {
        Ok(Some(v)) => Ok(Some(v@)),
        Ok(None) => Ok(None),
        Err(e) => Err(png_fault(e)),
    }
}

/// The colour profile of an image, on a machine whose lengths have so many bits.
pub uninterp spec fn png_icc(
    png: Seq<u8>,
    limits: Limits,
    bits: u32,
) -> Result<Option<Seq<u8>>, PngFault>;

/// Calls `icc_profile` of an `image::codecs::png::PngDecoder`. What it returns depends on the
/// image, the limits and the length of a `usize`.
#[verifier::external_body]
pub(crate) fn decode_icc(png: &[u8], limits: Limits) -> (r: Result<
    Option<Vec<u8>>,
    image::ImageError,
>)
    ensures
        found(r) == png_icc(png@, limits, usize::BITS),
{
    let mut l = image::Limits::no_limits();
    l.max_image_width = limits.max_image_width;
    l.max_image_height = limits.max_image_height;
    l.max_alloc = limits.max_alloc;
    PngDecoder::with_limits(Cursor::new(png), l).and_then(|mut d| d.icc_profile())
}

/// The Exif metadata of an image, on a machine whose lengths have so many bits.
pub uninterp spec fn png_exif(
    png: Seq<u8>,
    limits: Limits,
    bits: u32,
) -> Result<Option<Seq<u8>>, PngFault>;

/// Calls `exif_metadata` of an `image::codecs::png::PngDecoder`. What it returns depends on the
/// image, the limits and the length of a `usize`.
#[verifier::external_body]
pub(crate) fn decode_exif(png: &[u8], limits: Limits) -> (r: Result<
    Option<Vec<u8>>,
    image::ImageError,
>)
    ensures
        found(r) == png_exif(png@, limits, usize::BITS),
{
    let mut l = image::Limits::no_limits();
    l.max_image_width = limits.max_image_width;
    l.max_image_height = limits.max_image_height;
    l.max_alloc = limits.max_alloc;
    PngDecoder::with_limits(Cursor::new(png), l).and_then(|mut d| d.exif_metadata())
}

/// The XMP metadata of an image, on a machine whose lengths have so many bits.
pub uninterp spec fn png_xmp(
    png: Seq<u8>,
    limits: Limits,
    bits: u32,
) -> Result<Option<Seq<u8>>, PngFault>;

/// Calls `xmp_metadata` of an `image::codecs::png::PngDecoder`. What it returns depends on the
/// image, the limits and the length of a `usize`.
#[verifier::external_body]
pub(crate) fn decode_xmp(png: &[u8], limits: Limits) -> (r: Result<
    Option<Vec<u8>>,
    image::ImageError,
>)
    ensures
        found(r) == png_xmp(png@, limits, usize::BITS),
{
    let mut l = image::Limits::no_limits();
    l.max_image_width = limits.max_image_width;
    l.max_image_height = limits.max_image_height;
    l.max_alloc = limits.max_alloc;
    PngDecoder::with_limits(Cursor::new(png), l).and_then(|mut d| d.xmp_metadata())
}

/// The IPTC metadata of an image, on a machine whose lengths have so many bits.
pub uninterp spec fn png_iptc(
    png: Seq<u8>,
    limits: Limits,
    bits: u32,
) -> Result<Option<Seq<u8>>, PngFault>;

/// Calls `iptc_metadata` of an `image::codecs::png::PngDecoder`. What it returns depends on the
/// image, the limits and the length of a `usize`.
#[verifier::external_body]
pub(crate) fn decode_iptc(png: &[u8], limits: Limits) -> (r: Result<
    Option<Vec<u8>>,
    image::ImageError,
>)
    ensures
        found(r) == png_iptc(png@, limits, usize::BITS),
{
    let mut l = image::Limits::no_limits();
    l.max_image_width = limits.max_image_width;
    l.max_image_height = limits.max_image_height;
    l.max_alloc = limits.max_alloc;
    PngDecoder::with_limits(Cursor::new(png), l).and_then(|mut d| d.iptc_metadata())
}

/// The samples of an image, one pixel after the other, those of 16 bits with their more
/// significant byte first, on a machine whose lengths have so many bits.
pub uninterp spec fn png_pixels(png: Seq<u8>, limits: Limits, bits: u32) -> Result<
    Seq<u8>,
    PngFault,
>;

/// Whether `bytes` holds an image in this byte order. `big` holds it with the more significant byte
/// of every sample first, and `deep` says whether samples have two bytes.
pub open spec fn in_order(order: ByteOrder, deep: bool, big: Seq<u8>, bytes: Seq<u8>) -> bool {
    if deep && order is Little {
        &&& bytes.len() == big.len()
        &&& forall|i: int|
            0 <= i < big.len() ==> #[trigger] bytes[i] == big[if i % 2 == 0 {
                i + 1
            } else {
                i - 1
            }]
    } else {
        bytes == big
    }
}

/// Calls `read_image` of an `image::codecs::png::PngDecoder`, which decodes the image into a
/// buffer of the right length. Samples of 16 bits are stored in the byte order of this machine;
/// else what it does depends on the image, the limits and the length of a `usize`. If the header
/// cannot be read, it fails as that does, and leaves the buffer as it is. What other failures leave
/// there is not stated.
#[verifier::external_body]
pub(crate) fn decode_pixels(png: &[u8], limits: Limits, buf: &mut [u8]) -> (r: Result<
    (),
    image::ImageError,
>)
    requires
        png_header(png@, limits, usize::BITS) matches Ok(header) ==> old(buf)@.len()
            == header.layout().byte_count(),
    ensures
        final(buf)@.len() == old(buf)@.len(),
        match (png_pixels(png@, limits, usize::BITS), r) {
            (Ok(big), Ok(())) => png_header(png@, limits, usize::BITS) matches Ok(header) && in_order(
                types::machine_order(),
                header.pixel_bytes != header.channels,
                big,
                final(buf)@,
            ),
            (Err(fault), Err(e)) => png_fault(e) == fault,
            _ => false,
        },
        png_header(png@, limits, usize::BITS) is Err ==> {
            &&& r is Err
            &&& png_fault(r->Err_0) == png_header(png@, limits, usize::BITS)->Err_0
            &&& final(buf)@ == old(buf)@
        },
{
    let mut l = image::Limits::no_limits();
    l.max_image_width = limits.max_image_width;
    l.max_image_height = limits.max_image_height;
    l.max_alloc = limits.max_alloc;
    PngDecoder::with_limits(Cursor::new(png), l).and_then(|d| d.read_image(buf))
}

} // verus!
