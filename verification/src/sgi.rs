//! Decoding of SGI image files (`.rgb`).
//!
//! The format is obsolete. It has uncompressed and run-length encoded modes, a variable
//! number of channels, and samples of 8 or 16 bits.
//!
//! Not supported are:
//! - images with five or more channels. The format allows them, but hardly any exist;
//! - colour maps. Only the mode `NORMAL` (0) is supported. The others (`DITHERED`, `SCREEN`
//!   and `COLORMAP`) were obsolete when the format was written down.
//!
//! The format does not say how alpha is to be interpreted. Like other decoders, this one
//! takes it to be straight alpha.

use vstd::prelude::*;

use crate::decimal;
use crate::decimal::decimal_string;
use crate::source;
use crate::source::{be16_value, be32_value, ByteSource};
use crate::types::{
    metadata_free_attributes, native_order, ByteOrder, ColorType, DecoderAttributes,
    DecodingError, CodecError, ImageLayout, LimitErrorKind, Limits, ParameterErrorKind,
};
use packed::read_packed;
use rle::SgiRgbScanlineState;
use tables::read_rle;

pub mod files;
pub mod raster;
pub mod laws;
pub mod packed;
pub mod rle;
pub mod scan;
pub mod tables;

verus! {

/// The length of the file header, including padding.
pub const HEADER_FULL_LENGTH: usize = 512;

/// What matters of a file header, but for the name.
#[derive(Debug, Clone, Copy, PartialEq, Eq, Structural)]
pub struct SgiRgbHeaderInfo {
    pub xsize: u16,
    pub ysize: u16,
    pub color_type: ColorType,
    pub is_rle: bool,
}

/// What is wrong with a file.
#[derive(Debug, Clone, Copy, PartialEq, Eq, Structural)]
pub enum SgiRgbDecodeError {
    BadMagic,
    HeaderError,
    /// The offset and the length that are stated for a row.
    RLERowInvalid(u32, u32),
    UnexpectedColormap(u32),
    UnexpectedZSize(u16),
    ZeroSize(u16, u16, u16),
    ScanlineOverflow,
    ScanlineUnderflow,
    ScanlineTooShort,
    ScanlineTooLong,
    InvalidName,
    EarlyEOF,
}

impl SgiRgbDecodeError {
    /// What the error says.
    pub open spec fn text(self) -> Seq<char> {
        match self {
            SgiRgbDecodeError::BadMagic => "Incorrect magic bytes, not an SGI image file"@,
            SgiRgbDecodeError::HeaderError => "Error parsing header"@,
            SgiRgbDecodeError::UnexpectedColormap(code) => "Unexpected color map value ("@
                + decimal::decimal_text(code as nat) + ")"@,
            SgiRgbDecodeError::UnexpectedZSize(dim) => "Unexpected Z dimension is >= 5 ("@
                + decimal::decimal_text(dim as nat) + ")"@,
            SgiRgbDecodeError::ZeroSize(x, y, z) => "Image has zero size: x*y*z="@
                + decimal::decimal_text(x as nat) + "*"@ + decimal::decimal_text(y as nat) + "*"@
                + decimal::decimal_text(z as nat) + "=0"@,
            SgiRgbDecodeError::RLERowInvalid(offset, length) => "Bad RLE row info (offset="@
                + decimal::decimal_text(offset as nat) + ", length="@ + decimal::decimal_text(
                length as nat,
            ) + "); empty or not in image data region"@,
            SgiRgbDecodeError::InvalidName =>
                "Invalid name field (not null terminated or not ASCII)"@,
            SgiRgbDecodeError::ScanlineOverflow =>
                "An RLE-encoded scanline contained more data than the image width"@,
            SgiRgbDecodeError::ScanlineUnderflow =>
                "An RLE-encoded scanline contained less data than the image width"@,
            SgiRgbDecodeError::ScanlineTooShort =>
                "An RLE-encoded scanline stopped (reached a zero counter) before its stated length"@,
            SgiRgbDecodeError::ScanlineTooLong =>
                "An RLE-encoded scanline did not stop at its stated length (missing trailing zero counter)."@,
            SgiRgbDecodeError::EarlyEOF => "File ended before all scanlines were read."@,
        }
    }

    /// What the error says.
    pub fn message(&self) -> (r: String)
        ensures
            r@ == self.text(),
    {
        match self {
            SgiRgbDecodeError::BadMagic =>
                "Incorrect magic bytes, not an SGI image file".to_owned(),
            SgiRgbDecodeError::HeaderError => "Error parsing header".to_owned(),
            SgiRgbDecodeError::UnexpectedColormap(code) => {
                let mut r = "Unexpected color map value (".to_owned();
                r.append(decimal_string(*code as u64).as_str());
                r.append(")");
                r
            },
            SgiRgbDecodeError::UnexpectedZSize(dim) => {
                let mut r = "Unexpected Z dimension is >= 5 (".to_owned();
                r.append(decimal_string(*dim as u64).as_str());
                r.append(")");
                r
            },
            SgiRgbDecodeError::ZeroSize(x, y, z) => {
                let mut r = "Image has zero size: x*y*z=".to_owned();
                r.append(decimal_string(*x as u64).as_str());
                r.append("*");
                r.append(decimal_string(*y as u64).as_str());
                r.append("*");
                r.append(decimal_string(*z as u64).as_str());
                r.append("=0");
                r
            },
            SgiRgbDecodeError::RLERowInvalid(offset, length) => {
                let mut r = "Bad RLE row info (offset=".to_owned();
                r.append(decimal_string(*offset as u64).as_str());
                r.append(", length=");
                r.append(decimal_string(*length as u64).as_str());
                r.append("); empty or not in image data region");
                r
            },
            SgiRgbDecodeError::InvalidName =>
                "Invalid name field (not null terminated or not ASCII)".to_owned(),
            SgiRgbDecodeError::ScanlineOverflow =>
                "An RLE-encoded scanline contained more data than the image width".to_owned(),
            SgiRgbDecodeError::ScanlineUnderflow =>
                "An RLE-encoded scanline contained less data than the image width".to_owned(),
            SgiRgbDecodeError::ScanlineTooShort =>
                "An RLE-encoded scanline stopped (reached a zero counter) before its stated length".to_owned(),
            SgiRgbDecodeError::ScanlineTooLong =>
                "An RLE-encoded scanline did not stop at its stated length (missing trailing zero counter).".to_owned(),
            SgiRgbDecodeError::EarlyEOF =>
                "File ended before all scanlines were read.".to_owned(),
        }
    }
}

/// The sizes that a header states. Those that its number of dimensions leaves out are 1.
pub open spec fn header_sizes(header: Seq<u8>) -> (u16, u16, u16) {
    let dimension = source::be16(header, 4);
    (
        source::be16(header, 6),
        if dimension >= 2 {
            source::be16(header, 8)
        } else {
            1
        },
        if dimension >= 3 {
            source::be16(header, 10)
        } else {
            1
        },
    )
}

/// The name in a header: the bytes of the name field up to the first zero, if there is one
/// and all of them are ASCII characters.
pub open spec fn header_name(header: Seq<u8>) -> Option<Seq<u8>> {
    let field = header.subrange(24, 104);
    if field.contains(0) && forall|i: int|
        0 <= i < field.index_of_first(0)->0 ==> #[trigger] field[i] < 128 {
        Some(field.take(field.index_of_first(0)->0))
    } else {
        None
    }
}

/// The colour type of samples of `bpc` bytes in `zsize` channels.
pub open spec fn header_color(bpc: u8, zsize: u16) -> Option<ColorType> {
    if bpc == 1 {
        if zsize == 1 {
            Some(ColorType::L8)
        } else if zsize == 2 {
            Some(ColorType::La8)
        } else if zsize == 3 {
            Some(ColorType::Rgb8)
        } else if zsize == 4 {
            Some(ColorType::Rgba8)
        } else {
            None
        }
    } else if bpc == 2 {
        if zsize == 1 {
            Some(ColorType::L16)
        } else if zsize == 2 {
            Some(ColorType::La16)
        } else if zsize == 3 {
            Some(ColorType::Rgb16)
        } else if zsize == 4 {
            Some(ColorType::Rgba16)
        } else {
            None
        }
    } else {
        None
    }
}

/// What a file header says.
pub open spec fn header_info(header: Seq<u8>) -> Result<
    (SgiRgbHeaderInfo, Seq<u8>),
    SgiRgbDecodeError,
> {
    let storage = header[2];
    let bpc = header[3];
    let dimension = source::be16(header, 4);
    let (xsize, ysize, zsize) = header_sizes(header);
    let colormap = source::be32(header, 104);
    if header[0] != 0x01 || header[1] != 0xda {
        Err(SgiRgbDecodeError::BadMagic)
    } else if storage >= 2 || bpc == 0 {
        Err(SgiRgbDecodeError::HeaderError)
    } else if colormap != 0 {
        Err(SgiRgbDecodeError::UnexpectedColormap(colormap))
    } else if dimension == 0 || dimension >= 4 {
        Err(SgiRgbDecodeError::HeaderError)
    } else if xsize == 0 || ysize == 0 || zsize == 0 {
        Err(SgiRgbDecodeError::ZeroSize(xsize, ysize, zsize))
    } else {
        match (header_name(header), header_color(bpc, zsize)) {
            (None, _) => Err(SgiRgbDecodeError::InvalidName),
            (Some(name), Some(color_type)) => Ok(
                (SgiRgbHeaderInfo { xsize, ysize, color_type, is_rle: storage == 1 }, name),
            ),
            (Some(_), None) => if zsize >= 5 {
                Err(SgiRgbDecodeError::UnexpectedZSize(zsize))
            } else {
                Err(SgiRgbDecodeError::HeaderError)
            },
        }
    }
}

/// Reads the name field of a header.
fn parse_name(header: &[u8]) -> (r: Option<Vec<u8>>)
    requires
        header@.len() == HEADER_FULL_LENGTH,
    ensures
        header_name(header@) == (match r {
            Some(name) => Some(name@),
            None => None,
        }),
{
    let ghost field = header@.subrange(24, 104);
    let mut name: Vec<u8> = Vec::new();
    let mut ascii = true;
    let mut i: usize = 0;
    while i < 80
        invariant
            header@.len() == HEADER_FULL_LENGTH,
            field == header@.subrange(24, 104),
            i <= 80,
            name@ == field.take(i as int),
            ascii == (forall|j: int| 0 <= j < i ==> #[trigger] field[j] < 128),
            forall|j: int| 0 <= j < i ==> #[trigger] field[j] != 0,
        decreases 80 - i,
    {
        let b = header[24 + i];
        assert(b == field[i as int]);
        if b == 0 {
            proof {
                assert(field.contains(0));
                field.index_of_first_ensures(0);
                assert(field.index_of_first(0)->0 == i);
            }
            return if ascii {
                Some(name)
            } else {
                None
            };
        }
        if b >= 128 {
            ascii = false;
        }
        name.push(b);
        assert(name@ =~= field.take(i + 1));
        i += 1;
    }
    assert(!field.contains(0));
    None
}

/// Reads the file header, and returns what matters of it and the name.
///
/// The fields for the least and the greatest sample are ignored: encoders are inconsistent
/// about them. So are those that formerly had other uses, in which old files may hold
/// anything.
pub fn parse_header(header: &[u8]) -> (r: Result<(SgiRgbHeaderInfo, Vec<u8>), SgiRgbDecodeError>)
    requires
        header@.len() == HEADER_FULL_LENGTH,
    ensures
        header_info(header@) == (match r {
            Ok((info, name)) => Ok((info, name@)),
            Err(e) => Err(e),
        }),
{
    if header[0] != 0x01 || header[1] != 0xda {
        return Err(SgiRgbDecodeError::BadMagic);
    }
    let storage = header[2];
    let bpc = header[3];
    let dimension = be16_value(header[4], header[5]);
    let xsize = be16_value(header[6], header[7]);
    let ysize = be16_value(header[8], header[9]);
    let zsize = be16_value(header[10], header[11]);
    let colormap = be32_value(header[104], header[105], header[106], header[107]);
    if storage >= 2 {
        return Err(SgiRgbDecodeError::HeaderError);
    }
    if bpc == 0 {
        return Err(SgiRgbDecodeError::HeaderError);
    }
    if colormap != 0 {
        return Err(SgiRgbDecodeError::UnexpectedColormap(colormap));
    }
    // `ysize` and `zsize` are only looked at if they are used.
    let (xsize, ysize, zsize) = match dimension {
        1 => (xsize, 1u16, 1u16),
        2 => (xsize, ysize, 1u16),
        3 => (xsize, ysize, zsize),
        _ => {
            return Err(SgiRgbDecodeError::HeaderError);
        },
    };
    if xsize == 0 || ysize == 0 || zsize == 0 {
        return Err(SgiRgbDecodeError::ZeroSize(xsize, ysize, zsize));
    }
    let name = match parse_name(header) {
        Some(name) => name,
        None => {
            return Err(SgiRgbDecodeError::InvalidName);
        },
    };
    let color_type = match (bpc, zsize) {
        (1, 1) => ColorType::L8,
        (1, 2) => ColorType::La8,
        (1, 3) => ColorType::Rgb8,
        (1, 4) => ColorType::Rgba8,
        (2, 1) => ColorType::L16,
        (2, 2) => ColorType::La16,
        (2, 3) => ColorType::Rgb16,
        (2, 4) => ColorType::Rgba16,
        _ => {
            if zsize >= 5 {
                return Err(SgiRgbDecodeError::UnexpectedZSize(zsize));
            } else {
                return Err(SgiRgbDecodeError::HeaderError);
            }
        },
    };
    Ok((SgiRgbHeaderInfo { is_rle: storage == 1, xsize, ysize, color_type }, name))
}

impl SgiRgbHeaderInfo {
    /// The layout of the image.
    pub open spec fn layout(self) -> ImageLayout {
        ImageLayout { color: self.color_type, width: self.xsize as u32, height: self.ysize as u32 }
    }

    /// The number of bytes of memory that the table of scanlines takes.
    pub open spec fn table_bytes(self) -> nat {
        let size = self.entries() as nat * vstd::layout::size_of::<SgiRgbScanlineState>();
        if size <= u64::MAX {
            size
        } else {
            u64::MAX as nat
        }
    }

    /// The layout of the image.
    fn image_layout(&self) -> (r: ImageLayout)
        ensures
            r == self.layout(),
    {
        ImageLayout { color: self.color_type, width: self.xsize as u32, height: self.ysize as u32 }
    }

    /// The number of entries of each table.
    fn entry_count(&self) -> (r: u32)
        ensures
            r == self.entries(),
    {
        let channels = self.color_type.channel_count();
        assert(0 <= channels * self.ysize <= 4 * 0xffff) by (nonlinear_arith)
            requires
                0 <= channels <= 4,
                0 <= self.ysize <= 0xffff,
        ;
        channels as u32 * self.ysize as u32
    }

    /// The number of bytes of memory that the table of scanlines takes.
    fn table_memory(&self) -> (r: u64)
        ensures
            r == self.table_bytes(),
    {
        match (self.entry_count() as u64).checked_mul(core::mem::size_of::<SgiRgbScanlineState>() as u64) {
            Some(bytes) => bytes,
            None => u64::MAX,
        }
    }
}

/// How far a decoder has come.
#[derive(Debug, Clone, Copy, PartialEq, Eq, Structural)]
pub enum SgiDecoderState {
    /// Nothing has been read.
    Init,
    /// The header has been read.
    Header(SgiRgbHeaderInfo),
    /// An image without compression has been read. Where one with compression has been read, the
    /// decoder is left where it was with the header.
    Done,
}

/// A decoder for SGI images.
#[derive(Debug)]
pub struct SgiDecoder<E> {
    pub reader: ByteSource<E>,
    pub state: SgiDecoderState,
    pub limits: Limits,
}

impl<E> SgiDecoder<E> {
    /// What holds of every decoder.
    pub open spec fn wf(self) -> bool {
        &&& self.reader.wf()
        &&& self.state matches SgiDecoderState::Header(info) ==> info.wf()
    }

    /// The header, or the error that reading it gives.
    pub open spec fn header(self) -> Result<SgiRgbHeaderInfo, CodecError<E>> {
        match self.state {
            SgiDecoderState::Init => if self.reader.rest().len() < HEADER_FULL_LENGTH {
                Err(CodecError::IoError(self.reader.end_failure()))
            } else {
                match header_info(self.reader.rest().take(HEADER_FULL_LENGTH as int)) {
                    Ok((info, _)) => Ok(info),
                    Err(e) => Err(CodecError::Decoding(DecodingError::Sgi(e))),
                }
            },
            SgiDecoderState::Header(info) => Ok(info),
            SgiDecoderState::Done => Err(CodecError::Parameter(ParameterErrorKind::NoMoreData)),
        }
    }

    /// This decoder once its header has been read, or reading it has failed.
    pub open spec fn opened(self) -> SgiDecoder<E> {
        match self.state {
            SgiDecoderState::Init => if self.reader.rest().len() < HEADER_FULL_LENGTH {
                SgiDecoder { reader: self.reader.exhausted(), ..self }
            } else {
                SgiDecoder {
                    reader: self.reader.advanced(HEADER_FULL_LENGTH as int),
                    state: match self.header() {
                        Ok(info) => SgiDecoderState::Header(info),
                        Err(_) => SgiDecoderState::Init,
                    },
                    ..self
                }
            },
            _ => self,
        }
    }

    /// What `read_frame` makes of the decoder `before` and the image `buf0`.
    pub open spec fn frame_read(
        before: SgiDecoder<E>,
        order: ByteOrder,
        has_table: bool,
        buf0: Seq<u8>,
        after: SgiDecoder<E>,
        buf1: Seq<u8>,
        r: Result<(), CodecError<E>>,
    ) -> bool {
        let opened = before.opened();
        match before.header() {
            Err(e) => {
                &&& r == Err::<(), CodecError<E>>(e)
                &&& buf1 == buf0
                &&& after == opened
            },
            Ok(info) => match Self::refusal(info, before.limits, buf0.len(), has_table) {
                Some(kind) => {
                    &&& r == Err::<(), CodecError<E>>(CodecError::Limits(kind))
                    &&& buf1 == buf0
                    &&& after == opened
                },
                None => if info.is_rle {
                    &&& after.limits == before.limits
                    &&& after.state == SgiDecoderState::Header(info)
                    &&& rle_read(opened.reader, info, order, buf0, after.reader, buf1, r)
                } else {
                    &&& after.limits == before.limits
                    &&& after.state == (if r is Ok {
                        SgiDecoderState::Done
                    } else {
                        SgiDecoderState::Header(info)
                    })
                    &&& packed_read(opened.reader, info, order, buf0, after.reader, buf1, r)
                },
            },
        }
    }

    /// The limit that keeps an image from being read into a buffer of this length.
    pub open spec fn refusal(
        info: SgiRgbHeaderInfo,
        limits: Limits,
        len: nat,
        has_table: bool,
    ) -> Option<LimitErrorKind> {
        if !limits.allows_dimensions(info.xsize as u32, info.ysize as u32) {
            Some(LimitErrorKind::DimensionError)
        } else if !limits.allows_alloc(len) {
            Some(LimitErrorKind::InsufficientMemory)
        } else if info.is_rle && !limits.after_reserve(len).allows_alloc(info.table_bytes()) {
            Some(LimitErrorKind::InsufficientMemory)
        } else if info.is_rle && !has_table {
            Some(LimitErrorKind::InsufficientMemory)
        } else {
            None
        }
    }

    /// A decoder that has not read anything, and has no limits.
    pub fn new(r: ByteSource<E>) -> (d: SgiDecoder<E>)
        requires
            r.wf(),
        ensures
            d.wf(),
            d.reader == r,
            d.state == SgiDecoderState::Init,
            d.limits == (Limits {
                max_image_width: None,
                max_image_height: None,
                max_alloc: None,
            }),
    {
        SgiDecoder { reader: r, state: SgiDecoderState::Init, limits: Limits::no_limits() }
    }

    /// Reads the header, unless it has been read, and returns the layout of the image.
    pub fn peek_layout(&mut self) -> (r: Result<ImageLayout, CodecError<E>>)
        requires
            old(self).wf(),
        ensures
            final(self).wf(),
            *final(self) == old(self).opened(),
            r == (match old(self).header() {
                Ok(info) => Ok(info.layout()),
                Err(e) => Err(e),
            }),
    {
        match self.state {
            SgiDecoderState::Init => {
                let header = match self.reader.read_exact(HEADER_FULL_LENGTH) {
                    Ok(header) => header,
                    Err(e) => {
                        return Err(CodecError::IoError(e));
                    },
                };
                let (info, _) = match parse_header(header.as_slice()) {
                    Ok(v) => v,
                    Err(e) => {
                        return Err(CodecError::Decoding(DecodingError::Sgi(e)));
                    },
                };
                self.state = SgiDecoderState::Header(info);
                Ok(info.image_layout())
            },
            SgiDecoderState::Header(info) => Ok(info.image_layout()),
            SgiDecoderState::Done => Err(CodecError::Parameter(ParameterErrorKind::NoMoreData)),
        }
    }

    /// What can be known of the metadata: the format has none.
    pub fn attributes(&self) -> (r: DecoderAttributes)
        ensures
            r == crate::types::plain_attributes(),
    {
        metadata_free_attributes()
    }

    /// Checks the limits for reading an image into a buffer of `len` bytes.
    fn check_limits(&self, info: SgiRgbHeaderInfo, len: usize, has_table: bool) -> (r: Option<
        LimitErrorKind,
    >)
        ensures
            r == Self::refusal(info, self.limits, len as nat, has_table),
    {
        if let Err(kind) = self.limits.check_dimensions(info.xsize as u32, info.ysize as u32) {
            return Some(kind);
        }
        let mut frame_limits = self.limits;
        if let Err(kind) = frame_limits.reserve(len as u64) {
            return Some(kind);
        }
        if info.is_rle {
            if let Err(kind) = frame_limits.reserve(info.table_memory()) {
                return Some(kind);
            }
            if !has_table {
                return Some(LimitErrorKind::InsufficientMemory);
            }
        }
        None
    }

    /// Reads the image into `buf`, with samples of 16 bits in the given byte order.
    ///
    /// `rle_table` is an empty table for the scanlines of a run-length encoded image, or
    /// `None` if there is no memory for it.
    pub fn read_frame(
        &mut self,
        buf: &mut [u8],
        order: ByteOrder,
        rle_table: Option<Vec<SgiRgbScanlineState>>,
    ) -> (r: Result<(), CodecError<E>>)
        requires
            old(self).wf(),
            old(self).header() matches Ok(info) ==> old(buf)@.len() == info.layout().byte_count(),
            rle_table matches Some(table) ==> table@.len() == 0,
        ensures
            final(self).wf(),
            Self::frame_read(
                *old(self),
                order,
                rle_table is Some,
                old(buf)@,
                *final(self),
                final(buf)@,
                r,
            ),
    {
        self.peek_layout()?;
        let info = match self.state {
            SgiDecoderState::Header(info) => info,
            _ => {
                return Err(CodecError::Parameter(ParameterErrorKind::NoMoreData));
            },
        };
        proof {
            lemma_image_len(info);
        }
        if let Some(kind) = self.check_limits(info, buf.len(), rle_table.is_some()) {
            return Err(CodecError::Limits(kind));
        }
        if info.is_rle {
            match rle_table {
                Some(table) => read_rle(&mut self.reader, info, table, buf, order),
                None => Err(CodecError::Limits(LimitErrorKind::InsufficientMemory)),
            }
        } else {
            read_packed(&mut self.reader, info, buf, order)?;
            self.state = SgiDecoderState::Done;
            Ok(())
        }
    }

    /// Reads the image into `buf`, which has to have the length that the layout states. Samples
    /// of 16 bits are stored in the byte order of this machine.
    ///
    /// A run-length encoded image needs memory for a table. Where there is none, this fails
    /// with `InsufficientMemory`.
    pub fn read_image(&mut self, buf: &mut [u8]) -> (r: Result<(), CodecError<E>>)
        requires
            old(self).wf(),
            old(self).header() matches Ok(info) ==> old(buf)@.len() == info.layout().byte_count(),
        ensures
            final(self).wf(),
            exists|has_table: bool|
                #[trigger] Self::frame_read(
                    *old(self),
                    crate::types::machine_order(),
                    has_table,
                    old(buf)@,
                    *final(self),
                    final(buf)@,
                    r,
                ),
    {
        let order = native_order();
        if let Err(e) = self.peek_layout() {
            let r = Err(e);
            assert(Self::frame_read(*old(self), order, false, old(buf)@, *self, buf@, r));
            return r;
        }
        let ghost opened = *self;
        let mut rle_table: Option<Vec<SgiRgbScanlineState>> = None;
        if let SgiDecoderState::Header(info) = self.state {
            if info.is_rle && self.check_limits(info, buf.len(), true).is_none() {
                let mut table: Vec<SgiRgbScanlineState> = Vec::new();
                if table.try_reserve(info.entry_count() as usize).is_ok() {
                    rle_table = Some(table);
                }
            }
        }
        let ghost has_table = rle_table is Some;
        let r = self.read_frame(buf, order, rle_table);
        assert(Self::frame_read(opened, order, has_table, old(buf)@, *self, buf@, r));
        assert(Self::frame_read(*old(self), order, has_table, old(buf)@, *self, buf@, r));
        r
    }

    /// Sets the limits. All kinds of limits are supported.
    pub fn set_limits(&mut self, limits: Limits) -> (r: Result<(), CodecError<E>>)
        ensures
            r == Ok::<(), CodecError<E>>(()),
            *final(self) == (SgiDecoder { limits, ..*old(self) }),
    {
        self.limits = limits;
        Ok(())
    }
}

/// What reading a run-length encoded image gives.
pub open spec fn rle_read<E>(
    reader: ByteSource<E>,
    info: SgiRgbHeaderInfo,
    order: ByteOrder,
    buf0: Seq<u8>,
    reader1: ByteSource<E>,
    buf1: Seq<u8>,
    r: Result<(), CodecError<E>>,
) -> bool {
    match tables::tables_outcome(reader, info) {
        (Some(e), after) => {
            &&& r == Err::<(), CodecError<E>>(e)
            &&& reader1 == after
            &&& buf1 == buf0
        },
        (None, after) => exists|k: int|
            {
                &&& #[trigger] raster::decoded(
                    info,
                    order,
                    tables::table_lines(reader.rest(), info),
                    info.data_start(),
                    after.rest(),
                    after.window as int,
                    after.fault,
                    k,
                    buf0,
                    buf1,
                    r,
                )
                &&& reader1 == raster::reader_after(after, k)
            },
    }
}

/// What reading an uncompressed image gives.
pub open spec fn packed_read<E>(
    reader: ByteSource<E>,
    info: SgiRgbHeaderInfo,
    order: ByteOrder,
    buf0: Seq<u8>,
    reader1: ByteSource<E>,
    buf1: Seq<u8>,
    r: Result<(), CodecError<E>>,
) -> bool {
    let data = reader.rest();
    let size = rle::depth(info.color_type.is_deep()) * info.samples();
    &&& packed::unpacked(info, order, data, packed::available(info, data), buf0, buf1)
    &&& if size <= data.len() {
        &&& r == Ok::<(), CodecError<E>>(())
        &&& reader1 == reader.advanced(size)
    } else {
        &&& r == Err::<(), CodecError<E>>(CodecError::IoError(reader.end_failure()))
        &&& reader1 == reader.exhausted()
    }
}

/// The length of an image is that of its rows.
proof fn lemma_image_len(info: SgiRgbHeaderInfo)
    ensures
        info.layout().byte_count() == info.image_len(),
{
    let w = info.xsize as int;
    let h = info.ysize as int;
    let c = info.channels() as int;
    let d = rle::depth(info.color_type.is_deep());
    assert(info.color_type.pixel_bytes() == c * d);
    assert(h * (w * c * d) == w * h * (c * d)) by (nonlinear_arith);
}

} // verus!
