//! Encoding and decoding of WBMP images.
//!
//! WBMP (Wireless BitMaP) is the image format of the Wireless Application Protocol. Its images
//! have one bit for each pixel.

use vstd::prelude::*;

use crate::source::ByteSource;
use crate::types::{
    ColorType, DecodingError, EncodingError, ExtendedColorType, CodecError, ImageLayout,
    IoFailure, UnsupportedFeature,
};

pub mod laws;

verus! {

/// A decoder of the `wbmp` crate.
#[verifier::external_type_specification]
#[verifier::external_body]
#[verifier::reject_recursive_types(R)]
pub struct ExWbmpDecoder<R>(wbmp::Decoder<R>);

/// A reader of bytes in memory.
#[verifier::external_type_specification]
#[verifier::external_body]
#[verifier::reject_recursive_types(T)]
pub struct ExCursor<T>(std::io::Cursor<T>);

/// The bytes that a decoder has not read yet.
pub uninterp spec fn wbmp_unread(d: wbmp::Decoder<std::io::Cursor<Vec<u8>>>) -> Seq<u8>;

/// The width and height that a decoder has read.
pub uninterp spec fn wbmp_size(d: wbmp::Decoder<std::io::Cursor<Vec<u8>>>) -> (u32, u32);

/// What the `wbmp` crate reports.
#[derive(Debug, PartialEq, Eq)]
pub enum WbmpProblem {
    /// Bytes could not be read.
    Io,
    /// The image is of this type.
    UnsupportedType(u8),
    /// The image has extension headers.
    UnsupportedHeaders,
    /// The decoder was misused.
    Usage(String),
    /// The pixels do not fill the image.
    InvalidImageData,
}

/// A number in the form that the format uses: digits to the base 128, the most significant one
/// first, each but the last one with its highest bit set. This continues a number of which
/// `high` has been read, and gives the number and what follows it.
pub open spec fn number_value(s: Seq<u8>, high: u32) -> Option<(u32, Seq<u8>)>
    decreases s.len(),
{
    if s.len() == 0 {
        None
    } else {
        let v = ((high * 128) % 0x1_0000_0000 + s[0] % 128) as u32;
        if s[0] < 128 {
            Some((v, s.drop_first()))
        } else {
            number_value(s.drop_first(), v)
        }
    }
}

/// What the header of a file says: width, height, and what follows it.
pub open spec fn header_value(s: Seq<u8>) -> Result<(u32, u32, Seq<u8>), WbmpProblem> {
    if s.len() == 0 {
        Err(WbmpProblem::Io)
    } else if s[0] != 0 {
        Err(WbmpProblem::UnsupportedType(s[0]))
    } else if s.len() == 1 {
        Err(WbmpProblem::Io)
    } else if s[1] >= 128 {
        Err(WbmpProblem::UnsupportedHeaders)
    } else {
        match number_value(s.skip(2), 0) {
            None => Err(WbmpProblem::Io),
            Some((width, rest)) => match number_value(rest, 0) {
                None => Err(WbmpProblem::Io),
                Some((height, rest)) => Ok((width, height, rest)),
            },
        }
    }
}

/// The number of bytes of a row.
pub open spec fn row_bytes(width: nat) -> nat {
    (width + 7) / 8
}

/// Bit `i` of a byte, counting from the most significant one.
pub open spec fn bit(b: u8, i: int) -> bool {
    if i == 0 {
        b >= 128
    } else if i == 1 {
        (b / 64) % 2 == 1
    } else if i == 2 {
        (b / 32) % 2 == 1
    } else if i == 3 {
        (b / 16) % 2 == 1
    } else if i == 4 {
        (b / 8) % 2 == 1
    } else if i == 5 {
        (b / 4) % 2 == 1
    } else if i == 6 {
        (b / 2) % 2 == 1
    } else {
        b % 2 == 1
    }
}

/// Whether pixel `p` of rows of `width` pixels is white.
pub open spec fn is_white(data: Seq<u8>, width: nat, p: int) -> bool {
    let x = p % width as int;
    bit(data[(p / width as int) * row_bytes(width) + x / 8], x % 8)
}

/// The pixels of the image, with `0xff` where they are white in `data`, as far as it holds whole
/// rows. All others are those of `before`.
pub open spec fn whitened(data: Seq<u8>, width: nat, height: nat, before: Seq<u8>) -> Seq<u8> {
    Seq::new(
        before.len(),
        |p: int|
            if p < width * height && ((p / width as int) + 1) * row_bytes(width) <= data.len()
                && is_white(data, width, p) {
                0xffu8
            } else {
                before[p]
            },
    )
}

/// Calls `wbmp::Decoder::new`. It reads the header, and fails on images of another type than 0,
/// on extension headers, and where the bytes end too early.
#[verifier::external_body]
fn open_decoder(bytes: Vec<u8>) -> (r: Result<
    wbmp::Decoder<std::io::Cursor<Vec<u8>>>,
    WbmpProblem,
>)
    ensures
        match (header_value(bytes@), r) {
            (Ok((width, height, rest)), Ok(d)) => wbmp_size(d) == (width, height) && wbmp_unread(d)
                == rest,
            (Err(e), Err(p)) => p == e,
            _ => false,
        },
{
    wbmp::Decoder::new(std::io::Cursor::new(bytes)).map_err(|e| match e {
        wbmp::error::WbmpError::IoError(_) => WbmpProblem::Io,
        wbmp::error::WbmpError::UnsupportedType(t) => WbmpProblem::UnsupportedType(t),
        wbmp::error::WbmpError::UnsupportedHeaders => WbmpProblem::UnsupportedHeaders,
        wbmp::error::WbmpError::UsageError(text) => WbmpProblem::Usage(text),
        wbmp::error::WbmpError::InvalidImageData => WbmpProblem::InvalidImageData,
    })
}

/// Calls `wbmp::Decoder::dimensions`, which returns the width and height that were read.
#[verifier::external_body]
fn decoder_dimensions(d: &wbmp::Decoder<std::io::Cursor<Vec<u8>>>) -> (r: (u32, u32))
    ensures
        r == wbmp_size(*d),
{
    d.dimensions()
}

/// Calls `wbmp::Decoder::read_image_data`. It reads row after row, and sets to `0xff` the bytes
/// of `buf` whose pixels are white; the others it leaves as they are. It fails where the bytes
/// end before the last row. What is left to read then is not stated. The product of width and
/// height is computed in 32 bits.
#[verifier::external_body]
fn decode_pixels(d: &mut wbmp::Decoder<std::io::Cursor<Vec<u8>>>, buf: &mut [u8]) -> (r: Result<
    (),
    WbmpProblem,
>)
    requires
        wbmp_size(*old(d)).0 * wbmp_size(*old(d)).1 <= u32::MAX,
        old(buf)@.len() == wbmp_size(*old(d)).0 * wbmp_size(*old(d)).1,
    ensures
        ({
            let (width, height) = wbmp_size(*old(d));
            let data = wbmp_unread(*old(d));
            let size = row_bytes(width as nat) * height;
            &&& wbmp_size(*final(d)) == (width, height)
            &&& final(buf)@ == whitened(data, width as nat, height as nat, old(buf)@)
            &&& size <= data.len() ==> r == Ok::<(), WbmpProblem>(()) && wbmp_unread(*final(d))
                == data.skip(size)
            &&& size > data.len() ==> r == Err::<(), WbmpProblem>(WbmpProblem::Io)
        }),
{
    d.read_image_data(buf).map_err(|e| match e {
        wbmp::error::WbmpError::IoError(_) => WbmpProblem::Io,
        wbmp::error::WbmpError::UnsupportedType(t) => WbmpProblem::UnsupportedType(t),
        wbmp::error::WbmpError::UnsupportedHeaders => WbmpProblem::UnsupportedHeaders,
        wbmp::error::WbmpError::UsageError(text) => WbmpProblem::Usage(text),
        wbmp::error::WbmpError::InvalidImageData => WbmpProblem::InvalidImageData,
    })
}

/// The digits of a number that others follow.
pub open spec fn number_prefix(n: nat) -> Seq<u8>
    decreases n,
{
    if n == 0 {
        Seq::empty()
    } else {
        number_prefix(n / 128).push((128 + n % 128) as u8)
    }
}

/// A number in the form that the format uses.
pub open spec fn number_bytes(n: nat) -> Seq<u8> {
    number_prefix(n / 128).push((n % 128) as u8)
}

/// The header of a file.
pub open spec fn header_bytes(width: u32, height: u32) -> Seq<u8> {
    seq![0u8, 0u8] + number_bytes(width as nat) + number_bytes(height as nat)
}

/// The brightness of pixel `p`: its value, or the average of its four samples.
pub open spec fn brightness(rgba: bool, image: Seq<u8>, p: int) -> int {
    if rgba {
        (image[4 * p] + image[4 * p + 1] + image[4 * p + 2] + image[4 * p + 3]) / 4
    } else {
        image[p] as int
    }
}

/// Whether column `x` of row `y` is to be white.
pub open spec fn is_bright(
    rgba: bool,
    image: Seq<u8>,
    width: nat,
    threshold: u8,
    y: int,
    x: int,
) -> bool {
    x < width && brightness(rgba, image, y * width + x) >= threshold
}

/// A byte of which these bits are set, the most significant one first.
pub open spec fn byte_of(
    b0: bool,
    b1: bool,
    b2: bool,
    b3: bool,
    b4: bool,
    b5: bool,
    b6: bool,
    b7: bool,
) -> u8 {
    ((if b0 { 128int } else { 0 }) + (if b1 { 64int } else { 0 }) + (if b2 { 32int } else { 0 }) + (
    if b3 { 16int } else { 0 }) + (if b4 { 8int } else { 0 }) + (if b5 { 4int } else { 0 }) + (
    if b6 { 2int } else { 0 }) + (if b7 { 1int } else { 0 })) as u8
}

/// The rows of an image as they are stored.
pub open spec fn packed_rows(
    rgba: bool,
    image: Seq<u8>,
    width: nat,
    height: nat,
    threshold: u8,
) -> Seq<u8> {
    Seq::new(
        row_bytes(width) * height,
        |j: int|
            {
                let y = j / row_bytes(width) as int;
                let x = (j % row_bytes(width) as int) * 8;
                byte_of(
                    is_bright(rgba, image, width, threshold, y, x),
                    is_bright(rgba, image, width, threshold, y, x + 1),
                    is_bright(rgba, image, width, threshold, y, x + 2),
                    is_bright(rgba, image, width, threshold, y, x + 3),
                    is_bright(rgba, image, width, threshold, y, x + 4),
                    is_bright(rgba, image, width, threshold, y, x + 5),
                    is_bright(rgba, image, width, threshold, y, x + 6),
                    is_bright(rgba, image, width, threshold, y, x + 7),
                )
            },
    )
}

/// The number of bytes of each pixel that is encoded.
pub open spec fn samples(rgba: bool) -> int {
    if rgba {
        4
    } else {
        1
    }
}

/// Pixels that can be encoded.
#[derive(Debug, Clone, Copy, PartialEq, Eq, Structural)]
pub enum WbmpColor {
    /// One byte each.
    Luma8,
    /// Four bytes each.
    Rgba8,
}

/// Calls `wbmp::Encoder::encode` with a threshold.
/// It writes the header, and then the rows of the image, where a pixel is white if its
/// brightness is not below the threshold. If the pixels do not fill the image, it fails once the
/// header has been written. The length that they have to have is computed in 32 bits. There is
/// no encoding of an image without columns.
#[verifier::external_body]
fn encode_pixels(
    writer: &mut Vec<u8>,
    threshold: u8,
    image: &[u8],
    width: u32,
    height: u32,
    color: WbmpColor,
) -> (r: Result<(), WbmpProblem>)
    requires
        width * height * samples(color is Rgba8) <= u32::MAX,
        width * samples(color is Rgba8) <= usize::MAX,
        width > 0 || image@.len() > 0,
    ensures
        image@.len() == width * height * samples(color is Rgba8) ==> {
            &&& r == Ok::<(), WbmpProblem>(())
            &&& final(writer)@ == old(writer)@ + header_bytes(width, height) + packed_rows(
                color is Rgba8,
                image@,
                width as nat,
                height as nat,
                threshold,
            )
        },
        image@.len() != width * height * samples(color is Rgba8) ==> {
            &&& r == Err::<(), WbmpProblem>(WbmpProblem::InvalidImageData)
            &&& final(writer)@ == old(writer)@ + header_bytes(width, height)
        },
{
    let color = match color {
        WbmpColor::Luma8 => wbmp::ColorType::Luma8,
        WbmpColor::Rgba8 => wbmp::ColorType::Rgba8,
    };
    wbmp::Encoder::new(writer).with_threshold(threshold).encode(image, width, height, color).map_err(|e| match e {
        wbmp::error::WbmpError::IoError(_) => WbmpProblem::Io,
        wbmp::error::WbmpError::UnsupportedType(t) => WbmpProblem::UnsupportedType(t),
        wbmp::error::WbmpError::UnsupportedHeaders => WbmpProblem::UnsupportedHeaders,
        wbmp::error::WbmpError::UsageError(text) => WbmpProblem::Usage(text),
        wbmp::error::WbmpError::InvalidImageData => WbmpProblem::InvalidImageData,
    })
}

/// What a problem means for the caller. Where bytes could not be read, that is because the
/// reader failed with `fault`, or came to its end.
pub open spec fn problem_error<E>(problem: WbmpProblem, fault: Option<E>) -> CodecError<E> {
    match problem {
        WbmpProblem::Io => CodecError::IoError(
            match fault {
                Some(f) => IoFailure::Reader(f),
                None => IoFailure::UnexpectedEof,
            },
        ),
        WbmpProblem::UnsupportedType(t) => CodecError::Unsupported(UnsupportedFeature::WbmpType(t)),
        WbmpProblem::UnsupportedHeaders => CodecError::Unsupported(
            UnsupportedFeature::WbmpExtensionHeaders,
        ),
        WbmpProblem::InvalidImageData => CodecError::Encoding(EncodingError::InvalidImageData),
        WbmpProblem::Usage(text) => CodecError::Decoding(DecodingError::Wbmp(text)),
    }
}

/// What a problem means for the caller.
pub fn convert_wbmp_error<E>(problem: WbmpProblem, fault: &mut Option<E>) -> (r: CodecError<E>)
    ensures
        r == problem_error(problem, *old(fault)),
        *final(fault) == (if problem is Io {
            None
        } else {
            *old(fault)
        }),
{
    match problem {
        WbmpProblem::Io => match fault.take() {
            Some(f) => CodecError::IoError(IoFailure::Reader(f)),
            None => CodecError::IoError(IoFailure::UnexpectedEof),
        },
        WbmpProblem::UnsupportedType(t) => CodecError::Unsupported(UnsupportedFeature::WbmpType(t)),
        WbmpProblem::UnsupportedHeaders => CodecError::Unsupported(
            UnsupportedFeature::WbmpExtensionHeaders,
        ),
        WbmpProblem::InvalidImageData => CodecError::Encoding(EncodingError::InvalidImageData),
        WbmpProblem::Usage(text) => CodecError::Decoding(DecodingError::Wbmp(text)),
    }
}

/// An encoder for WBMP images.
#[derive(Debug)]
pub struct WbmpEncoder {
    /// What has been written.
    pub writer: Vec<u8>,
    /// The least brightness that becomes white.
    pub threshold: u8,
}

impl WbmpEncoder {
    /// What `write_image` makes of the encoder `before`.
    pub open spec fn written<E>(
        before: WbmpEncoder,
        buf: Seq<u8>,
        width: u32,
        height: u32,
        color_type: ExtendedColorType,
        after: WbmpEncoder,
        r: Result<(), CodecError<E>>,
    ) -> bool {
        let rgba = color_type is Rgba8;
        &&& after.threshold == before.threshold
        &&& if !(color_type is L8) && !(color_type is Rgba8) {
            &&& r == Err::<(), CodecError<E>>(
                CodecError::Encoding(EncodingError::UnsupportedColorType),
            )
            &&& after.writer@ == before.writer@
        } else if buf.len() == width * height * samples(rgba) {
            &&& r == Ok::<(), CodecError<E>>(())
            &&& after.writer@ == before.writer@ + header_bytes(width, height) + packed_rows(
                rgba,
                buf,
                width as nat,
                height as nat,
                before.threshold,
            )
        } else {
            &&& r == Err::<(), CodecError<E>>(
                CodecError::Encoding(EncodingError::InvalidImageData),
            )
            &&& after.writer@ == before.writer@ + header_bytes(width, height)
        }
    }

    /// An encoder that appends to `writer`, with the threshold 127.
    pub fn new(writer: Vec<u8>) -> (r: WbmpEncoder)
        ensures
            r.writer == writer,
            r.threshold == 127,
    {
        WbmpEncoder { writer, threshold: 127 }
    }

    /// This encoder with another threshold.
    pub fn with_threshold(self, threshold: u8) -> (r: WbmpEncoder)
        ensures
            r == (WbmpEncoder { threshold, ..self }),
    {
        WbmpEncoder { writer: self.writer, threshold }
    }

    /// Encodes an image, of which the pixels are grey (`L8`) or have colour (`Rgba8`).
    pub fn write_image<E>(
        &mut self,
        buf: &[u8],
        width: u32,
        height: u32,
        color_type: ExtendedColorType,
    ) -> (r: Result<(), CodecError<E>>)
        requires
            color_type is L8 || color_type is Rgba8 ==> {
                &&& width * height * samples(color_type is Rgba8) <= u32::MAX
                &&& width * samples(color_type is Rgba8) <= usize::MAX
                &&& width > 0 || buf@.len() > 0
            },
        ensures
            Self::written(*old(self), buf@, width, height, color_type, *final(self), r),
    {
        let color = match color_type {
            ExtendedColorType::L8 => WbmpColor::Luma8,
            ExtendedColorType::Rgba8 => WbmpColor::Rgba8,
            _ => {
                return Err(CodecError::Encoding(EncodingError::UnsupportedColorType));
            },
        };
        match encode_pixels(&mut self.writer, self.threshold, buf, width, height, color) {
            Ok(()) => Ok(()),
            Err(problem) => {
                let mut fault: Option<E> = None;
                Err(convert_wbmp_error(problem, &mut fault))
            },
        }
    }
}

/// A decoder for WBMP images.
pub struct WbmpDecoder<E> {
    pub inner: wbmp::Decoder<std::io::Cursor<Vec<u8>>>,
    /// The error with which the reader fails at the end of what it delivers.
    pub fault: Option<E>,
}

impl<E> WbmpDecoder<E> {
    /// The width and height of the image.
    pub open spec fn size(self) -> (u32, u32) {
        wbmp_size(self.inner)
    }

    /// The bytes that have not been read.
    pub open spec fn unread(self) -> Seq<u8> {
        wbmp_unread(self.inner)
    }

    /// The layout of the image.
    pub open spec fn layout(self) -> ImageLayout {
        ImageLayout { color: ColorType::L8, width: self.size().0, height: self.size().1 }
    }

    /// What reading the header of a source gives.
    pub open spec fn opened(r: ByteSource<E>, res: Result<WbmpDecoder<E>, CodecError<E>>) -> bool {
        match (header_value(r.rest()), res) {
            (Ok((width, height, rest)), Ok(d)) => {
                &&& d.size() == (width, height)
                &&& d.unread() == rest
                &&& d.fault == r.fault
            },
            (Err(problem), Err(e)) => e == problem_error(problem, r.fault),
            _ => false,
        }
    }

    /// What `read_image` makes of the decoder `before` and the buffer `buf0`.
    pub open spec fn taken(
        before: WbmpDecoder<E>,
        buf0: Seq<u8>,
        after: WbmpDecoder<E>,
        buf1: Seq<u8>,
        r: Result<(), CodecError<E>>,
    ) -> bool {
        let (width, height) = before.size();
        let data = before.unread();
        let size = row_bytes(width as nat) * height;
        &&& after.size() == before.size()
        &&& buf1 == whitened(data, width as nat, height as nat, buf0)
        &&& size <= data.len() ==> {
            &&& r == Ok::<(), CodecError<E>>(())
            &&& after.unread() == data.skip(size)
            &&& after.fault == before.fault
        }
        &&& size > data.len() ==> {
            &&& r == Err::<(), CodecError<E>>(problem_error(WbmpProblem::Io, before.fault))
            &&& after.fault is None
        }
    }

    /// Reads the header.
    pub fn new(r: ByteSource<E>) -> (res: Result<WbmpDecoder<E>, CodecError<E>>)
        requires
            r.wf(),
        ensures
            Self::opened(r, res),
    {
        let bytes = vstd::slice::slice_to_vec(
            vstd::slice::slice_subrange(r.data.as_slice(), r.pos, r.data.len()),
        );
        assert(bytes@ =~= r.rest());
        let mut fault = r.fault;
        match open_decoder(bytes) {
            Ok(inner) => Ok(WbmpDecoder { inner, fault }),
            Err(problem) => Err(convert_wbmp_error(problem, &mut fault)),
        }
    }

    /// The layout of the image.
    pub fn peek_layout(&mut self) -> (r: Result<ImageLayout, CodecError<E>>)
        ensures
            *final(self) == *old(self),
            r == Ok::<ImageLayout, CodecError<E>>(old(self).layout()),
    {
        let (width, height) = decoder_dimensions(&self.inner);
        Ok(ImageLayout { color: ColorType::L8, width, height })
    }

    /// The colour type of the file: one bit for each pixel.
    pub fn original_color_type(&mut self) -> (r: Result<ExtendedColorType, CodecError<E>>)
        ensures
            *final(self) == *old(self),
            r == Ok::<ExtendedColorType, CodecError<E>>(ExtendedColorType::L1),
    {
        Ok(ExtendedColorType::L1)
    }

    /// Reads the image into `buf`, one byte for each pixel. Bytes of white pixels become `0xff`;
    /// those of black pixels are left as they are.
    pub fn read_image(&mut self, buf: &mut [u8]) -> (r: Result<(), CodecError<E>>)
        requires
            old(self).size().0 * old(self).size().1 <= u32::MAX,
            old(buf)@.len() == old(self).size().0 * old(self).size().1,
        ensures
            Self::taken(*old(self), old(buf)@, *final(self), final(buf)@, r),
    {
        match decode_pixels(&mut self.inner, buf) {
            Ok(()) => Ok(()),
            Err(problem) => Err(convert_wbmp_error(problem, &mut self.fault)),
        }
    }
}

} // verus!
