//! The vocabulary that the decoders share: pixel layouts, resource limits and errors.

use vstd::prelude::*;

use crate::decimal;
use crate::decimal::decimal_string;
use crate::ora::OraDecodeError;
use crate::psd::{PsdBitDepth, PsdColorSpace};
use crate::sgi::SgiRgbDecodeError;
use crate::xbm::XbmDecodeError;

pub mod laws;

verus! {

/// How the pixels of a decoded image are laid out in memory.
#[derive(Debug, Clone, Copy, PartialEq, Eq, Structural)]
pub enum ColorType {
    L8,
    La8,
    Rgb8,
    Rgba8,
    L16,
    La16,
    Rgb16,
    Rgba16,
}

impl ColorType {
    /// The number of samples that make up a pixel.
    pub open spec fn channels(self) -> nat {
        match self {
            ColorType::L8 | ColorType::L16 => 1,
            ColorType::La8 | ColorType::La16 => 2,
            ColorType::Rgb8 | ColorType::Rgb16 => 3,
            ColorType::Rgba8 | ColorType::Rgba16 => 4,
        }
    }

    /// Whether a sample takes two bytes.
    pub open spec fn is_deep(self) -> bool {
        self is L16 || self is La16 || self is Rgb16 || self is Rgba16
    }

    /// The number of bytes that one sample takes.
    pub open spec fn sample_bytes(self) -> nat {
        if self.is_deep() { 2 } else { 1 }
    }

    /// The number of bytes that one pixel takes.
    pub open spec fn pixel_bytes(self) -> nat {
        self.channels() * self.sample_bytes()
    }

    /// The number of samples that make up a pixel.
    pub fn channel_count(self) -> (r: u8)
        ensures
            r == self.channels(),
            1 <= r <= 4,
    {
        match self {
            ColorType::L8 | ColorType::L16 => 1,
            ColorType::La8 | ColorType::La16 => 2,
            ColorType::Rgb8 | ColorType::Rgb16 => 3,
            ColorType::Rgba8 | ColorType::Rgba16 => 4,
        }
    }

    /// The number of bytes that one pixel takes.
    pub fn bytes_per_pixel(self) -> (r: u8)
        ensures
            r == self.pixel_bytes(),
            1 <= r <= 8,
    {
        match self {
            ColorType::L8 => 1,
            ColorType::La8 | ColorType::L16 => 2,
            ColorType::Rgb8 => 3,
            ColorType::Rgba8 | ColorType::La16 => 4,
            ColorType::Rgb16 => 6,
            ColorType::Rgba16 => 8,
        }
    }
}

/// The colour layout that a file stores, before decoding.
#[derive(Debug, Clone, Copy, PartialEq, Eq, Structural)]
pub enum ExtendedColorType {
    L1,
    L2,
    L4,
    L8,
    La8,
    Rgb1,
    Rgb2,
    Rgb4,
    Rgb8,
    Rgba1,
    Rgba2,
    Rgba4,
    Rgba8,
    L16,
    La16,
    Rgb16,
    Rgba16,
    /// A layout without a name here, with this many bits for each pixel.
    Unknown(u8),
}

/// The order in which the two bytes of a 16-bit sample are stored.
#[derive(Debug, Clone, Copy, PartialEq, Eq, Structural)]
pub enum ByteOrder {
    Little,
    Big,
}

/// The byte at place `b` (0 or 1) of the two bytes of `v`.
pub open spec fn sample_byte(order: ByteOrder, v: u16, b: int) -> u8 {
    if (order is Big) == (b == 0) {
        (v / 256) as u8
    } else {
        (v % 256) as u8
    }
}

/// The order in which this machine stores integers.
pub open spec fn machine_order() -> ByteOrder {
    match vstd::endian::endianness() {
        vstd::endian::Endian::Little => ByteOrder::Little,
        vstd::endian::Endian::Big => ByteOrder::Big,
    }
}

/// The order in which this machine stores integers.
pub(crate) fn native_order() -> (r: ByteOrder)
    ensures
        r == machine_order(),
{
    let one = one_in_native_order();
    if one[0] == 1 {
        ByteOrder::Little
    } else {
        ByteOrder::Big
    }
}

/// Calls `u16::to_ne_bytes` on 1, which gives the two bytes of 1 in the order in which this machine
/// stores integers.
#[verifier::external_body]
fn one_in_native_order() -> (r: [u8; 2])
    ensures
        r@ == seq![sample_byte(machine_order(), 1, 0), sample_byte(machine_order(), 1, 1)],
{
    u16::to_ne_bytes(1)
}

/// The size and pixel layout of a decoded image.
#[derive(Debug, Clone, Copy, PartialEq, Eq, Structural)]
pub struct ImageLayout {
    pub color: ColorType,
    pub width: u32,
    pub height: u32,
}

impl ImageLayout {
    /// The number of bytes that the decoded image takes.
    pub open spec fn byte_count(self) -> nat {
        self.width as nat * self.height as nat * self.color.pixel_bytes()
    }

    /// The number of bytes that the decoded image takes, or `u64::MAX` if that is less.
    pub fn total_bytes(&self) -> (r: u64)
        ensures
            r as nat == (if self.byte_count() <= u64::MAX { self.byte_count() } else {
                u64::MAX as nat
            }),
    {
        let width: u64 = self.width as u64;
        let height: u64 = self.height as u64;
        assert(width * height <= 0xffff_ffff * 0xffff_ffff) by (nonlinear_arith)
            requires
                width <= 0xffff_ffff,
                height <= 0xffff_ffff,
        ;
        match (width * height).checked_mul(self.color.bytes_per_pixel() as u64) {
            Some(bytes) => bytes,
            None => u64::MAX,
        }
    }

    /// Whether the decoded image takes `len` bytes.
    pub fn fits(&self, len: usize) -> (r: bool)
        ensures
            r == (self.byte_count() == len),
    {
        let width: u128 = self.width as u128;
        let height: u128 = self.height as u128;
        let pixel: u128 = self.color.bytes_per_pixel() as u128;
        assert(0 <= width * height <= 0xffff_ffff * 0xffff_ffff) by (nonlinear_arith)
            requires
                width <= 0xffff_ffff,
                height <= 0xffff_ffff,
        ;
        assert(width * height * pixel <= 0xffff_ffff * 0xffff_ffff * 8) by (nonlinear_arith)
            requires
                0 <= width * height <= 0xffff_ffff * 0xffff_ffff,
                pixel <= 8,
        ;
        width * height * pixel == len as u128
    }

    /// Width and height.
    pub fn dimensions(&self) -> (r: (u32, u32))
        ensures
            r == (self.width, self.height),
    {
        (self.width, self.height)
    }
}

/// What a decoder tells about where a kind of metadata is found in a file.
#[derive(Debug, Clone, Copy, PartialEq, Eq, Structural)]
pub enum DecodedMetadataHint {
    /// Nothing is known about it.
    Unknown,
    /// It is known from the header on.
    InHeader,
    /// The format never holds it.
    Absent,
}

/// What can be said of a decoder before anything is decoded.
#[derive(Debug, Clone, Copy, PartialEq, Eq, Structural)]
pub struct DecoderAttributes {
    pub is_animated: bool,
    pub is_sequence: bool,
    pub icc: DecodedMetadataHint,
    pub exif: DecodedMetadataHint,
    pub xmp: DecodedMetadataHint,
    pub iptc: DecodedMetadataHint,
}

/// The attributes of a decoder for a single image without any metadata.
pub open spec fn plain_attributes() -> DecoderAttributes {
    DecoderAttributes {
        is_animated: false,
        is_sequence: false,
        icc: DecodedMetadataHint::Absent,
        exif: DecodedMetadataHint::Absent,
        xmp: DecodedMetadataHint::Absent,
        iptc: DecodedMetadataHint::Absent,
    }
}

/// The attributes of a decoder for a single image without any metadata.
pub fn metadata_free_attributes() -> (r: DecoderAttributes)
    ensures
        r == plain_attributes(),
{
    DecoderAttributes {
        is_animated: false,
        is_sequence: false,
        icc: DecodedMetadataHint::Absent,
        exif: DecodedMetadataHint::Absent,
        xmp: DecodedMetadataHint::Absent,
        iptc: DecodedMetadataHint::Absent,
    }
}

/// Bounds on what decoding may cost.
#[derive(Debug, Clone, Copy, PartialEq, Eq, Structural)]
pub struct Limits {
    /// The greatest width that is accepted, if there is one.
    pub max_image_width: Option<u32>,
    /// The greatest height that is accepted, if there is one.
    pub max_image_height: Option<u32>,
    /// The greatest number of bytes that may be allocated, if there is one.
    pub max_alloc: Option<u64>,
}

impl Limits {
    /// Whether an image of this size is within the limits.
    pub open spec fn allows_dimensions(self, width: u32, height: u32) -> bool {
        &&& self.max_image_width matches Some(w) ==> width <= w
        &&& self.max_image_height matches Some(h) ==> height <= h
    }

    /// Whether `amount` bytes may be allocated.
    pub open spec fn allows_alloc(self, amount: nat) -> bool {
        self.max_alloc matches Some(max) ==> amount <= max
    }

    /// The limits that are left once `amount` bytes have been allocated.
    pub open spec fn after_reserve(self, amount: nat) -> Limits {
        Limits {
            max_alloc: match self.max_alloc {
                Some(max) => Some((max - amount) as u64),
                None => None,
            },
            ..self
        }
    }

    /// No limits at all.
    pub fn no_limits() -> (r: Limits)
        ensures
            r == (Limits { max_image_width: None, max_image_height: None, max_alloc: None }),
    {
        Limits { max_image_width: None, max_image_height: None, max_alloc: None }
    }

    /// Checks an image's size against the limits.
    pub fn check_dimensions(&self, width: u32, height: u32) -> (r: Result<(), LimitErrorKind>)
        ensures
            r == (if self.allows_dimensions(width, height) {
                Ok::<(), LimitErrorKind>(())
            } else {
                Err(LimitErrorKind::DimensionError)
            }),
    {
        if let Some(max_width) = self.max_image_width {
            if width > max_width {
                return Err(LimitErrorKind::DimensionError);
            }
        }
        if let Some(max_height) = self.max_image_height {
            if height > max_height {
                return Err(LimitErrorKind::DimensionError);
            }
        }
        Ok(())
    }

    /// Takes `amount` bytes off what may still be allocated.
    pub fn reserve(&mut self, amount: u64) -> (r: Result<(), LimitErrorKind>)
        ensures
            old(self).allows_alloc(amount as nat) ==> {
                &&& r == Ok::<(), LimitErrorKind>(())
                &&& *final(self) == old(self).after_reserve(amount as nat)
            },
            !old(self).allows_alloc(amount as nat) ==> {
                &&& r == Err::<(), LimitErrorKind>(LimitErrorKind::InsufficientMemory)
                &&& *final(self) == *old(self)
            },
    {
        if let Some(max_alloc) = self.max_alloc {
            if max_alloc < amount {
                return Err(LimitErrorKind::InsufficientMemory);
            }
            self.max_alloc = Some(max_alloc - amount);
        }
        Ok(())
    }
}

/// Which limit was exceeded.
#[derive(Debug, Clone, Copy, PartialEq, Eq, Structural)]
pub enum LimitErrorKind {
    DimensionError,
    InsufficientMemory,
}

/// How a decoder was misused.
#[derive(Debug, PartialEq, Eq)]
pub enum ParameterErrorKind {
    /// The buffer does not fit the image.
    DimensionMismatch,
    /// The image was read before, or reading it failed before.
    NoMoreData,
    /// `peek_layout` has to be called first.
    NeedPeekLayout,
    /// Something else; the text says what.
    Generic(String),
}

impl ParameterErrorKind {
    /// What the error says, as text.
    pub open spec fn text(self) -> Seq<char> {
        match self {
            ParameterErrorKind::DimensionMismatch =>
                "The Image's dimensions are either too small or too large"@,
            ParameterErrorKind::NoMoreData => "The end of the image has been reached"@,
            ParameterErrorKind::NeedPeekLayout => "Need to call peek_layout() first"@,
            ParameterErrorKind::Generic(text) => text@,
        }
    }

    /// What the error says, as text.
    pub fn message(&self) -> (r: String)
        ensures
            r@ == self.text(),
    {
        match self {
            ParameterErrorKind::DimensionMismatch =>
                "The Image's dimensions are either too small or too large".to_owned(),
            ParameterErrorKind::NoMoreData => "The end of the image has been reached".to_owned(),
            ParameterErrorKind::NeedPeekLayout => "Need to call peek_layout() first".to_owned(),
            ParameterErrorKind::Generic(text) => text.clone(),
        }
    }
}

/// The kind of an error of `std::io`.
#[verifier::external_type_specification]
#[verifier::external_body]
pub struct ExErrorKind(std::io::ErrorKind);

/// Why bytes could not be read. `E` is the error type of the reader that delivered them.
#[derive(Debug, PartialEq, Eq)]
pub enum IoFailure<E> {
    /// The reader failed with this error.
    Reader(E),
    /// The bytes ended before everything was read.
    UnexpectedEof,
    /// The bytes were read, but could not be made sense of; the text says why.
    InvalidData(String),
    /// Reading failed with an error of this kind; the text says why.
    Failed(std::io::ErrorKind, String),
    /// Another failure; the text says what.
    Other(String),
}

/// What in a file is not in the form that its format asks for. `E` is the error type of the
/// underlying reader.
#[derive(Debug, PartialEq, Eq)]
pub enum DecodingError<E> {
    Xbm(XbmDecodeError),
    Sgi(SgiRgbDecodeError),
    OpenRaster(OraDecodeError),
    /// The reader of an OpenRaster file failed with this error while the archive was opened.
    OpenRasterReader(E),
    /// The text is that of the PSD parser's error.
    Psd(String),
    /// The text is that of the WBMP parser's error.
    Wbmp(String),
}

/// Why an image cannot be encoded.
#[derive(Debug, Clone, Copy, PartialEq, Eq, Structural)]
pub enum EncodingError {
    /// WBMP cannot be made of pixels in this layout.
    UnsupportedColorType,
    /// The pixels do not fill the image.
    InvalidImageData,
}

/// A feature of a format that is not supported.
#[derive(Debug, PartialEq, Eq)]
pub enum UnsupportedFeature {
    /// A WBMP image of this type.
    WbmpType(u8),
    /// A WBMP image with extension headers.
    WbmpExtensionHeaders,
    /// A PSD image in this colour space, with samples of this depth.
    PsdColor(PsdColorSpace, PsdBitDepth),
    /// An OpenRaster image whose merged image the PNG decoder does not support; the text
    /// says why.
    OpenRaster(String),
}

impl UnsupportedFeature {
    /// What the error says.
    pub open spec fn text(self) -> Seq<char> {
        match self {
            UnsupportedFeature::WbmpType(t) => "type "@ + decimal::decimal_text(t as nat)
                + " is not supported for wbmp images"@,
            UnsupportedFeature::WbmpExtensionHeaders =>
                "Extension headers are not supported for wbmp images"@,
            UnsupportedFeature::PsdColor(space, depth) => "Unsupported color space "@
                + space.text() + " and bit depth "@ + depth.text(),
            UnsupportedFeature::OpenRaster(text) => text@,
        }
    }

    /// What the error says.
    pub fn message(&self) -> (r: String)
        ensures
            r@ == self.text(),
    {
        match self {
            UnsupportedFeature::WbmpType(t) => {
                let mut r = "type ".to_owned();
                r.append(decimal_string(*t as u64).as_str());
                r.append(" is not supported for wbmp images");
                r
            },
            UnsupportedFeature::WbmpExtensionHeaders =>
                "Extension headers are not supported for wbmp images".to_owned(),
            UnsupportedFeature::PsdColor(space, depth) => {
                let mut r = "Unsupported color space ".to_owned();
                r.append(space.name());
                r.append(" and bit depth ");
                r.append(depth.name());
                r
            },
            UnsupportedFeature::OpenRaster(text) => text.clone(),
        }
    }
}

/// Why decoding or encoding failed. `E` is the error type of the underlying reader.
#[derive(Debug, PartialEq, Eq)]
pub enum CodecError<E> {
    Decoding(DecodingError<E>),
    Encoding(EncodingError),
    Parameter(ParameterErrorKind),
    Limits(LimitErrorKind),
    Unsupported(UnsupportedFeature),
    IoError(IoFailure<E>),
}

} // verus!
