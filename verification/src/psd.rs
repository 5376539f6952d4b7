//! Decoding of PSD images.
//!
//! PSD is the working format of the Photoshop raster editor. Only the composite image of a file
//! is decoded; its layers are not exposed.

use vstd::prelude::*;

use zune_core::bit_depth::BitDepth as ZuneBitDepth;
use zune_core::colorspace::ColorSpace as ZuneColorSpace;
use zune_core::options::DecoderOptions;
use zune_core::result::DecodingResult;
use zune_psd::PSDDecoder;

use crate::source;
use crate::source::{be32_value, ByteSource};
use crate::types;
use crate::types::{
    ByteOrder, ColorType, DecodingError, CodecError, IoFailure, LimitErrorKind, Limits,
    UnsupportedFeature,
};

pub mod laws;

verus! {

/// The colour spaces that the `zune-psd` crate tells apart.
#[derive(Debug, Clone, Copy, PartialEq, Eq, Structural)]
pub enum PsdColorSpace {
    Luma,
    LumaA,
    RGB,
    RGBA,
    CMYK,
    Unknown,
}

/// The bit depths that the `zune-psd` crate tells apart.
#[derive(Debug, Clone, Copy, PartialEq, Eq, Structural)]
pub enum PsdBitDepth {
    Eight,
    Sixteen,
}

impl PsdColorSpace {
    /// What the colour space is called.
    pub open spec fn text(self) -> Seq<char> {
        match self {
            PsdColorSpace::Luma => "Luma"@,
            PsdColorSpace::LumaA => "LumaA"@,
            PsdColorSpace::RGB => "RGB"@,
            PsdColorSpace::RGBA => "RGBA"@,
            PsdColorSpace::CMYK => "CMYK"@,
            PsdColorSpace::Unknown => "Unknown"@,
        }
    }

    /// What the colour space is called.
    pub fn name(&self) -> (r: &'static str)
        ensures
            r@ == self.text(),
    {
        match self {
            PsdColorSpace::Luma => "Luma",
            PsdColorSpace::LumaA => "LumaA",
            PsdColorSpace::RGB => "RGB",
            PsdColorSpace::RGBA => "RGBA",
            PsdColorSpace::CMYK => "CMYK",
            PsdColorSpace::Unknown => "Unknown",
        }
    }

    /// The number of channels that an image in this colour space has at most.
    pub open spec fn channels(self) -> nat {
        match self {
            PsdColorSpace::Luma => 1,
            PsdColorSpace::LumaA => 2,
            PsdColorSpace::RGB => 3,
            _ => 4,
        }
    }
}

impl PsdBitDepth {
    /// What the bit depth is called.
    pub open spec fn text(self) -> Seq<char> {
        match self {
            PsdBitDepth::Eight => "Eight"@,
            PsdBitDepth::Sixteen => "Sixteen"@,
        }
    }

    /// What the bit depth is called.
    pub fn name(&self) -> (r: &'static str)
        ensures
            r@ == self.text(),
    {
        match self {
            PsdBitDepth::Eight => "Eight",
            PsdBitDepth::Sixteen => "Sixteen",
        }
    }

    /// The number of bytes of a sample.
    pub open spec fn bytes(self) -> nat {
        if self is Eight {
            1
        } else {
            2
        }
    }
}

/// What a file header says.
#[derive(Debug, Clone, Copy, PartialEq, Eq, Structural)]
pub struct PsdHeader {
    pub width: usize,
    pub height: usize,
    pub color_space: PsdColorSpace,
    pub bit_depth: PsdBitDepth,
}

/// The samples of an image.
#[derive(Debug, PartialEq, Eq)]
pub enum PsdPixels {
    U8(Vec<u8>),
    U16(Vec<u16>),
}

/// The length of the part of a file that can be read. Three sections follow the first fields of the
/// header, each with its length before it. Where the end of a section cannot be counted in a
/// `usize`, the file is taken to end before the length of that section. It cannot be that long.
pub open spec fn readable_len(file: Seq<u8>) -> nat {
    let a = 30 + source::be32(file, 26);
    let b = a + 4 + source::be32(file, a);
    let c = b + 4 + source::be32(file, b);
    if file.len() < 30 {
        file.len()
    } else if a + 4 > usize::MAX {
        26
    } else if a + 4 > file.len() {
        file.len()
    } else if b + 4 > usize::MAX {
        a as nat
    } else if b + 4 > file.len() {
        file.len()
    } else if c + 2 > usize::MAX {
        b as nat
    } else {
        file.len()
    }
}

/// The part of a file that can be read.
pub open spec fn readable(file: Seq<u8>) -> Seq<u8> {
    file.take(readable_len(file) as int)
}

/// Where a `usize` has 64 bits, all of a file can be read.
pub proof fn law_all_is_readable(file: Seq<u8>)
    requires
        usize::BITS == 64,
    ensures
        readable(file) == file,
{
    assert(readable_len(file) == file.len());
    assert(readable(file) =~= file);
}

/// All of the part of a file that can be read can be read.
proof fn lemma_readable(file: Seq<u8>)
    ensures
        readable_len(file) <= file.len(),
        readable_len(readable(file)) == readable(file).len(),
{
    let part = readable(file);
    let a = 30 + source::be32(file, 26);
    if part.len() >= 30 {
        assert(source::be32(part, 26) == source::be32(file, 26));
        if part.len() >= a + 4 {
            assert(source::be32(part, a) == source::be32(file, a));
            let b = a + 4 + source::be32(file, a);
            if part.len() >= b + 4 {
                assert(source::be32(part, b) == source::be32(file, b));
            }
        }
    }
}

/// The four bytes at a position of a file, as an integer.
fn length_at(file: &[u8], at: usize) -> (r: u64)
    requires
        at + 4 <= file@.len(),
    ensures
        r == source::be32(file@, at as int),
{
    be32_value(file[at], file[at + 1], file[at + 2], file[at + 3]) as u64
}

/// The length of the part of a file that can be read.
fn readable_length(file: &[u8]) -> (r: usize)
    ensures
        r == readable_len(file@),
{
    let len = file.len() as u64;
    let max = usize::MAX as u64;
    if len < 30 {
        return file.len();
    }
    let a = 30 + length_at(file, 26);
    if a > max - 4 {
        return 26;
    }
    if a + 4 > len {
        return file.len();
    }
    let b = a + 4 + length_at(file, a as usize);
    if b > max - 4 {
        return a as usize;
    }
    if b + 4 > len {
        return file.len();
    }
    let c = b + 4 + length_at(file, b as usize);
    if c > max - 2 {
        return b as usize;
    }
    file.len()
}

/// What the header of a file says, or the text of the error, where the image may be at most so
/// wide and so high. Positions in the file are counted in so many bits.
pub uninterp spec fn psd_header(
    file: Seq<u8>,
    max_width: usize,
    max_height: usize,
    bits: u32,
) -> Result<PsdHeader, Seq<char>>;

/// What a file holds: samples of 8 bits; or samples of 16 bits, as a machine sees them that
/// stores the less significant byte of an integer first, and as one does that stores it last.
pub enum PsdSamples {
    U8(Seq<u8>),
    U16(Seq<u16>, Seq<u16>),
}

/// What comes of decoding a file, or the text of the error. Positions in the file are counted in so
/// many bits.
pub uninterp spec fn psd_decoded(
    file: Seq<u8>,
    max_width: usize,
    max_height: usize,
    bits: u32,
) -> Result<PsdSamples, Seq<char>>;

/// Calls `zune_psd::PSDDecoder::decode_headers`, and then the functions that tell what was read.
/// The image that a header states is not empty, and is not larger than is allowed. Positions in
/// the file are counted in a `usize`, which has to be able to hold them.
#[verifier::external_body]
fn decode_header(file: &[u8], max_width: usize, max_height: usize) -> (r: Result<
    PsdHeader,
    String,
>)
    requires
        readable_len(file@) == file@.len(),
    ensures
        psd_header(file@, max_width, max_height, usize::BITS) == (match r {
            Ok(header) => Ok(header),
            Err(text) => Err(text@),
        }),
        r matches Ok(header) ==> {
            &&& 0 < header.width <= max_width
            &&& 0 < header.height <= max_height
        },
{
    let options = DecoderOptions::default().set_strict_mode(false);
    let options = options.set_max_width(max_width).set_max_height(max_height);
    let mut d = PSDDecoder::new_with_options(file, options);
    d.decode_headers().map_err(|e| format!("{:?}", e))?;
    let (width, height) = d.get_dimensions().unwrap();
    let color_space = match d.get_colorspace().unwrap() {
        ZuneColorSpace::Luma => PsdColorSpace::Luma,
        ZuneColorSpace::LumaA => PsdColorSpace::LumaA,
        ZuneColorSpace::RGB => PsdColorSpace::RGB,
        ZuneColorSpace::RGBA => PsdColorSpace::RGBA,
        ZuneColorSpace::CMYK => PsdColorSpace::CMYK,
        _ => PsdColorSpace::Unknown,
    };
    let bit_depth = match d.get_bit_depth() { Some(ZuneBitDepth::Eight) => PsdBitDepth::Eight, _ => PsdBitDepth::Sixteen };
    Ok(PsdHeader { width, height, color_space, bit_depth })
}

/// Calls `zune_psd::PSDDecoder::decode`. Samples of 16 bits depend on how the machine stores
/// integers, but their number does not. Positions in the file are counted in a `usize`, which has to
/// be able to hold them. There are at most as many samples as the colour space has channels for each
/// pixel. Memory is allocated for them, and for a few more.
#[verifier::external_body]
fn decode_pixels(file: &[u8], max_width: usize, max_height: usize) -> (r: Result<
    PsdPixels,
    String,
>)
    requires
        readable_len(file@) == file@.len(),
        psd_header(file@, max_width, max_height, usize::BITS) matches Ok(h) ==> h.width * h.height
            * h.color_space.channels() * h.bit_depth.bytes() + 20 <= isize::MAX,
    ensures
        match (psd_decoded(file@, max_width, max_height, usize::BITS), r) {
            (Ok(PsdSamples::U8(bytes)), Ok(PsdPixels::U8(v))) => v@ == bytes,
            (Ok(PsdSamples::U16(little, big)), Ok(PsdPixels::U16(v))) => {
                &&& v@ == (match types::machine_order() {
                    ByteOrder::Little => little,
                    ByteOrder::Big => big,
                })
                &&& v@.len() == little.len()
                &&& v@.len() == big.len()
            },
            (Err(text), Err(s)) => s@ == text,
            _ => false,
        },
        r matches Ok(pixels) ==> {
            &&& psd_header(file@, max_width, max_height, usize::BITS) matches Ok(h) && (pixels is U8)
                == (h.bit_depth is Eight)
        },
{
    let options = DecoderOptions::default().set_strict_mode(false);
    let options = options.set_max_width(max_width).set_max_height(max_height);
    match PSDDecoder::new_with_options(file, options).decode() {
        Ok(DecodingResult::U8(v)) => Ok(PsdPixels::U8(v)),
        Ok(DecodingResult::U16(v)) => Ok(PsdPixels::U16(v)),
        Ok(_) => Err(String::new()),
        Err(e) => Err(format!("{:?}", e)),
    }
}

/// Calls `bytemuck::cast_slice`, which shows the bytes of samples as this machine stores them.
#[verifier::external_body]
fn sample_bytes(v: &[u16]) -> (r: &[u8])
    ensures
        r@.len() == 2 * v@.len(),
        in_order(types::machine_order(), v@, r@),
{
    bytemuck::cast_slice::<u16, u8>(v)
}

/// Whether `bytes` holds samples in a byte order.
pub open spec fn in_order(order: ByteOrder, samples: Seq<u16>, bytes: Seq<u8>) -> bool {
    &&& bytes.len() == 2 * samples.len()
    &&& forall|i: int|
        0 <= i < bytes.len() ==> #[trigger] bytes[i] == types::sample_byte(
            order,
            samples[i / 2],
            i % 2,
        )
}

impl PsdSamples {
    /// The number of bytes of the samples.
    pub open spec fn size(self) -> nat {
        match self {
            PsdSamples::U8(bytes) => bytes.len(),
            PsdSamples::U16(little, _) => 2 * little.len(),
        }
    }

    /// Whether `bytes` holds the samples that this machine sees, as it stores them.
    pub open spec fn stored(self, bytes: Seq<u8>) -> bool {
        match self {
            PsdSamples::U8(v) => bytes == v,
            PsdSamples::U16(little, big) => match types::machine_order() {
                ByteOrder::Little => in_order(ByteOrder::Little, little, bytes),
                ByteOrder::Big => in_order(ByteOrder::Big, big, bytes),
            },
        }
    }
}

impl PsdPixels {
    /// The number of bytes of the samples.
    pub open spec fn size(self) -> nat {
        match self {
            PsdPixels::U8(v) => v@.len(),
            PsdPixels::U16(v) => 2 * v@.len(),
        }
    }

    /// Whether `bytes` holds the samples, in the byte order of this machine.
    pub open spec fn stored(self, bytes: Seq<u8>) -> bool {
        match self {
            PsdPixels::U8(v) => bytes == v@,
            PsdPixels::U16(v) => in_order(types::machine_order(), v@, bytes),
        }
    }

    /// Whether the samples take `len` bytes.
    fn fits(&self, len: usize) -> (r: bool)
        ensures
            r == (self.size() == len),
    {
        match self {
            PsdPixels::U8(v) => v.len() == len,
            PsdPixels::U16(v) => len % 2 == 0 && v.len() == len / 2,
        }
    }

    /// Copies the samples to `buf`, in the byte order of this machine.
    pub fn copy_to(&self, buf: &mut [u8])
        requires
            old(buf)@.len() == self.size(),
        ensures
            self.stored(final(buf)@),
    {
        match self {
            PsdPixels::U8(v) => copy_bytes(v.as_slice(), buf),
            PsdPixels::U16(v) => copy_bytes(sample_bytes(v.as_slice()), buf),
        }
    }
}

/// Copies bytes.
fn copy_bytes(from: &[u8], to: &mut [u8])
    requires
        old(to)@.len() == from@.len(),
    ensures
        final(to)@ == from@,
{
    let mut i: usize = 0;
    while i < from.len()
        invariant
            i <= from@.len() == to@.len(),
            forall|j: int| 0 <= j < i ==> to@[j] == #[trigger] from@[j],
        decreases from@.len() - i,
    {
        to[i] = from[i];
        i += 1;
    }
    assert(to@ =~= from@);
}

/// The lesser of two numbers.
fn min(a: usize, b: usize) -> (r: usize)
    ensures
        r == (if a <= b {
            a
        } else {
            b
        }),
{
    if a <= b {
        a
    } else {
        b
    }
}

/// Reads everything that a reader delivers, unless that is more than `max_length` bytes: then
/// the result is `None`, and one more byte has been taken.
pub fn read_at_most_limit<E>(r: &mut ByteSource<E>, max_length: usize) -> (res: Result<
    Option<Vec<u8>>,
    IoFailure<E>,
>)
    requires
        old(r).wf(),
    ensures
        final(r).wf(),
        old(r).rest().len() > max_length ==> {
            &&& res == Ok::<Option<Vec<u8>>, IoFailure<E>>(None)
            &&& *final(r) == old(r).advanced(max_length + 1)
        },
        old(r).rest().len() <= max_length ==> {
            &&& *final(r) == old(r).exhausted()
            &&& old(r).fault matches Some(f) ==> res == Err::<Option<Vec<u8>>, IoFailure<E>>(
                IoFailure::Reader(f),
            )
            &&& old(r).fault is None ==> (res matches Ok(Some(v)) && v@ == old(r).rest())
        },
{
    let limit = min(max_length, isize::MAX as usize);
    let ghost rest = r.rest();
    let mut total_read: usize = 0;
    let mut v: Vec<u8> = Vec::new();
    v.resize(min(4096, limit), 0);
    assert(v@.take(0) =~= rest.take(0));
    let mut at_end = false;
    while total_read < limit && !at_end
        invariant
            r.wf(),
            old(r).wf(),
            rest == old(r).rest(),
            total_read <= v@.len() <= limit <= isize::MAX,
            limit == max_length || isize::MAX <= limit <= max_length,
            total_read < limit ==> total_read < v@.len(),
            total_read <= rest.len(),
            *r == old(r).advanced(total_read as int),
            v@.take(total_read as int) == rest.take(total_read as int),
            at_end ==> total_read == rest.len() && old(r).fault is None,
        decreases limit - total_read + (if at_end { 0int } else { 1int }),
    {
        let ghost before = v@;
        let ghost now = *r;
        let ghost mut tail0 = Seq::<u8>::empty();
        let ghost mut tail1 = Seq::<u8>::empty();
        assert(r.rest() =~= rest.skip(total_read as int));
        let res;
        {
            let (_, tail) = v.as_mut_slice().split_at_mut(total_read);
            proof {
                tail0 = tail@;
            }
            res = r.read(tail);
            proof {
                tail1 = tail@;
            }
        }
        let nread = res?;
        proof {
            assert(v@ =~= before.take(total_read as int) + tail1);
            assert(v@.take(total_read + nread) =~= rest.take(total_read + nread)) by {
                assert forall|j: int| 0 <= j < total_read + nread implies v@[j] == rest[j] by {
                    if j < total_read {
                        assert(before.take(total_read as int)[j] == rest.take(
                            total_read as int,
                        )[j]);
                    } else {
                        assert(tail1.take(nread as int)[j - total_read] == now.rest().take(
                            nread as int,
                        )[j - total_read]);
                    }
                }
            }
        }
        total_read = total_read + nread;
        if nread == 0 {
            at_end = true;
        } else if total_read > v.len() / 2 {
            let ghost filled = v@;
            let twice = if v.len() <= limit / 2 {
                v.len() * 2
            } else {
                limit
            };
            v.resize(twice, 0);
            assert(v@.take(total_read as int) =~= filled.take(total_read as int));
        }
    }
    if total_read == limit {
        assert(r.rest() =~= rest.skip(total_read as int));
        let mut tmp: [u8; 1] = [0u8];
        let n = r.read(&mut tmp)?;
        if n > 0 {
            return Ok(None);
        }
    }
    v.truncate(total_read);
    assert(v@ =~= rest);
    Ok(Some(v))
}

/// The colour type of images in this colour space, with samples of this depth.
pub open spec fn color_type_of(space: PsdColorSpace, depth: PsdBitDepth) -> Option<ColorType> {
    match (space, depth) {
        (PsdColorSpace::Luma, PsdBitDepth::Eight) => Some(ColorType::L8),
        (PsdColorSpace::LumaA, PsdBitDepth::Eight) => Some(ColorType::La8),
        (PsdColorSpace::RGB, PsdBitDepth::Eight) => Some(ColorType::Rgb8),
        (PsdColorSpace::RGBA, PsdBitDepth::Eight) => Some(ColorType::Rgba8),
        (PsdColorSpace::Luma, PsdBitDepth::Sixteen) => Some(ColorType::La16),
        (PsdColorSpace::LumaA, PsdBitDepth::Sixteen) => Some(ColorType::La16),
        (PsdColorSpace::RGB, PsdBitDepth::Sixteen) => Some(ColorType::Rgb16),
        (PsdColorSpace::RGBA, PsdBitDepth::Sixteen) => Some(ColorType::Rgba16),
        _ => None,
    }
}

/// The greatest width that limits allow.
pub open spec fn width_limit(limits: Limits) -> usize {
    match limits.max_image_width {
        Some(w) => w as usize,
        None => u32::MAX as usize,
    }
}

/// The greatest height that limits allow.
pub open spec fn height_limit(limits: Limits) -> usize {
    match limits.max_image_height {
        Some(h) => h as usize,
        None => u32::MAX as usize,
    }
}

/// The greatest length of a file that limits allow.
pub open spec fn file_limit(limits: Limits) -> int {
    match limits.max_alloc {
        Some(max) if max <= isize::MAX => max as int,
        _ => isize::MAX as int,
    }
}

/// What a header means: the size and the colour type of the image, or why it cannot be decoded.
pub open spec fn image_of<E>(header: PsdHeader) -> Result<((u32, u32), ColorType), CodecError<E>> {
    if header.width > u32::MAX || header.height > u32::MAX {
        Err(CodecError::Limits(LimitErrorKind::DimensionError))
    } else {
        match color_type_of(header.color_space, header.bit_depth) {
            Some(color_type) => Ok(((header.width as u32, header.height as u32), color_type)),
            None => Err(
                CodecError::Unsupported(
                    UnsupportedFeature::PsdColor(header.color_space, header.bit_depth),
                ),
            ),
        }
    }
}

/// What a header means.
pub fn interpret_header<E>(header: PsdHeader) -> (r: Result<
    ((u32, u32), ColorType),
    CodecError<E>,
>)
    ensures
        r == image_of::<E>(header),
{
    if header.width > u32::MAX as usize || header.height > u32::MAX as usize {
        return Err(CodecError::Limits(LimitErrorKind::DimensionError));
    }
    let dimensions = (header.width as u32, header.height as u32);
    let color_type = match (header.color_space, header.bit_depth) {
        (PsdColorSpace::Luma, PsdBitDepth::Eight) => ColorType::L8,
        (PsdColorSpace::LumaA, PsdBitDepth::Eight) => ColorType::La8,
        (PsdColorSpace::RGB, PsdBitDepth::Eight) => ColorType::Rgb8,
        (PsdColorSpace::RGBA, PsdBitDepth::Eight) => ColorType::Rgba8,
        (PsdColorSpace::Luma, PsdBitDepth::Sixteen) => ColorType::La16,
        (PsdColorSpace::LumaA, PsdBitDepth::Sixteen) => ColorType::La16,
        (PsdColorSpace::RGB, PsdBitDepth::Sixteen) => ColorType::Rgb16,
        (PsdColorSpace::RGBA, PsdBitDepth::Sixteen) => ColorType::Rgba16,
        _ => {
            return Err(
                CodecError::Unsupported(
                    UnsupportedFeature::PsdColor(header.color_space, header.bit_depth),
                ),
            );
        },
    };
    Ok((dimensions, color_type))
}

/// A decoder for PSD images.
#[derive(Debug)]
pub struct PsdDecoder<E> {
    dimensions: (u32, u32),
    file_contents: Vec<u8>,
    limits: Limits,
    color_type: ColorType,
    /// The error type of the reader, which is not kept once the file has been loaded.
    phantom: core::marker::PhantomData<E>,
}

impl<E> PsdDecoder<E> {
    /// The size and the colour type are those that the header states.
    #[verifier::type_invariant]
    spec fn consistent(self) -> bool {
        &&& readable_len(self.file_contents@) == self.file_contents@.len()
        &&& psd_header(
            self.file_contents@,
            width_limit(self.limits),
            height_limit(self.limits),
            usize::BITS,
        ) matches Ok(header) && image_of::<E>(header) == Ok::<
            ((u32, u32), ColorType),
            CodecError<E>,
        >((self.dimensions, self.color_type))
    }

    /// The size of the image.
    pub closed spec fn size(self) -> (u32, u32) {
        self.dimensions
    }

    /// The colour type of the image.
    pub closed spec fn color(self) -> ColorType {
        self.color_type
    }

    /// The file, as far as it can be read.
    pub closed spec fn file(self) -> Seq<u8> {
        self.file_contents@
    }

    /// The limits.
    pub closed spec fn limits_set(self) -> Limits {
        self.limits
    }

    /// The number of bytes that the decoded image takes.
    pub open spec fn byte_count(self) -> nat {
        self.size().0 as nat * self.size().1 as nat * self.color().pixel_bytes()
    }

    /// Whether the limits keep the image from being read: besides the file, a copy of the
    /// image is held in memory.
    pub open spec fn refused(self) -> bool {
        self.byte_count() + self.file().len() + 1 >= (match self.limits_set().max_alloc {
            Some(max) => max,
            None => u64::MAX,
        })
    }

    /// What comes of decoding the file.
    pub open spec fn decoded(self) -> Result<PsdSamples, Seq<char>> {
        psd_decoded(
            self.file(),
            width_limit(self.limits_set()),
            height_limit(self.limits_set()),
            usize::BITS,
        )
    }

    /// What reading the image into a buffer leaves there, and whether it succeeds.
    pub open spec fn image_read(
        self,
        before: Seq<u8>,
        after: Seq<u8>,
        r: Result<(), CodecError<E>>,
    ) -> bool {
        &&& after.len() == before.len()
        &&& if self.refused() {
            &&& r == Err::<(), CodecError<E>>(
                CodecError::Limits(LimitErrorKind::InsufficientMemory),
            )
            &&& after == before
        } else {
            match self.decoded() {
                Err(text) => {
                    &&& r matches Err(CodecError::Decoding(DecodingError::Psd(s))) && s@ == text
                    &&& after == before
                },
                Ok(samples) => {
                    &&& r == Ok::<(), CodecError<E>>(())
                    &&& samples.stored(after)
                },
            }
        }
    }

    /// What `with_limits` makes of a source.
    pub open spec fn loaded(
        r: ByteSource<E>,
        limits: Limits,
        res: Result<PsdDecoder<E>, CodecError<E>>,
    ) -> bool {
        let file = r.rest();
        if file.len() > file_limit(limits) {
            res == Err::<PsdDecoder<E>, CodecError<E>>(
                CodecError::Limits(LimitErrorKind::InsufficientMemory),
            )
        } else if r.fault is Some {
            res == Err::<PsdDecoder<E>, CodecError<E>>(
                CodecError::IoError(IoFailure::Reader(r.fault->0)),
            )
        } else {
            match psd_header(
                readable(file),
                width_limit(limits),
                height_limit(limits),
                usize::BITS,
            ) {
                Err(text) => res matches Err(CodecError::Decoding(DecodingError::Psd(s))) && s@
                    == text,
                Ok(header) => match (image_of::<E>(header), res) {
                    (Ok((size, color)), Ok(d)) => {
                        &&& d.size() == size
                        &&& d.color() == color
                        &&& d.file() == readable(file)
                        &&& d.limits_set() == limits
                    },
                    (Err(e), Err(error)) => error == e,
                    _ => false,
                },
            }
        }
    }

    /// Loads a file, unless it is longer than the limits allow, and reads its header.
    pub fn with_limits(r: ByteSource<E>, limits: Limits) -> (res: Result<
        PsdDecoder<E>,
        CodecError<E>,
    >)
        requires
            r.wf(),
        ensures
            Self::loaded(r, limits, res),
            res matches Ok(d) ==> {
                &&& d.size().0 > 0
                &&& d.size().1 > 0
                &&& limits.allows_dimensions(d.size().0, d.size().1)
            },
    {
        let mut r = r;
        let max_length = match limits.max_alloc {
            Some(max) => if max <= isize::MAX as u64 {
                max as usize
            } else {
                isize::MAX as usize
            },
            None => isize::MAX as usize,
        };
        let mut file_contents = match read_at_most_limit(&mut r, max_length) {
            Ok(Some(v)) => v,
            Ok(None) => {
                return Err(CodecError::Limits(LimitErrorKind::InsufficientMemory));
            },
            Err(e) => {
                return Err(CodecError::IoError(e));
            },
        };
        let ghost file = file_contents@;
        proof {
            lemma_readable(file);
        }
        file_contents.truncate(readable_length(file_contents.as_slice()));
        assert(file_contents@ =~= readable(file));
        let header = match decode_header(
            file_contents.as_slice(),
            max_width(&limits),
            max_height(&limits),
        ) {
            Ok(header) => header,
            Err(text) => {
                return Err(CodecError::Decoding(DecodingError::Psd(text)));
            },
        };
        let (dimensions, color_type) = interpret_header(header)?;
        Ok(
            PsdDecoder {
                dimensions,
                color_type,
                limits,
                file_contents,
                phantom: core::marker::PhantomData,
            },
        )
    }

    /// The size of the image.
    pub fn dimensions(&self) -> (r: (u32, u32))
        ensures
            r == self.size(),
    {
        self.dimensions
    }

    /// The colour type of the image.
    pub fn color_type(&self) -> (r: ColorType)
        ensures
            r == self.color(),
    {
        self.color_type
    }

    /// Whether the limits keep an image of `len` bytes from being read.
    fn over_limit(&self, len: usize) -> (r: bool)
        requires
            len == self.byte_count(),
        ensures
            r == self.refused(),
    {
        let file_len = self.file_contents.len() as u64;
        let max_alloc = match self.limits.max_alloc {
            Some(max) => max,
            None => u64::MAX,
        };
        match (len as u64).checked_add(file_len) {
            None => true,
            Some(sum) => sum == u64::MAX || sum + 1 >= max_alloc,
        }
    }

    /// Decodes the file.
    fn decode(&self) -> (r: Result<PsdPixels, String>)
        requires
            self.byte_count() + 20 <= isize::MAX,
        ensures
            match (self.decoded(), r) {
                (Ok(samples), Ok(pixels)) => {
                    &&& pixels.size() == samples.size()
                    &&& forall|bytes: Seq<u8>| #[trigger]
                        pixels.stored(bytes) ==> samples.stored(bytes)
                },
                (Err(text), Err(s)) => s@ == text,
                _ => false,
            },
    {
        proof {
            use_type_invariant(self);
            let file = self.file_contents@;
            let h = psd_header(
                file,
                width_limit(self.limits),
                height_limit(self.limits),
                usize::BITS,
            )->Ok_0;
            let pixels = h.width * h.height;
            let a = (h.color_space.channels() * h.bit_depth.bytes()) as int;
            let b = self.color_type.pixel_bytes() as int;
            assert(a <= b) by (nonlinear_arith)
                requires
                    a == h.color_space.channels() * h.bit_depth.bytes(),
                    b == self.color_type.channels() * self.color_type.sample_bytes(),
                    h.color_space.channels() <= self.color_type.channels(),
                    h.bit_depth.bytes() == self.color_type.sample_bytes(),
            ;
            assert(0 <= pixels) by (nonlinear_arith)
                requires
                    pixels == h.width * h.height,
                    h.width >= 0,
                    h.height >= 0,
            ;
            assert(pixels * a <= pixels * b) by (nonlinear_arith)
                requires
                    0 <= pixels,
                    a <= b,
            ;
            assert(pixels * h.color_space.channels() * h.bit_depth.bytes() == pixels * a)
                by (nonlinear_arith)
                requires
                    a == h.color_space.channels() * h.bit_depth.bytes(),
            ;
        }
        decode_pixels(
            self.file_contents.as_slice(),
            max_width(&self.limits),
            max_height(&self.limits),
        )
    }

    /// Reads the image into `buf`, which has to have the length that the size and the colour type
    /// state. The file has to hold that many samples.
    pub fn read_image(self, buf: &mut [u8]) -> (r: Result<(), CodecError<E>>)
        requires
            old(buf)@.len() == self.byte_count(),
            self.byte_count() + 20 <= isize::MAX,
            !self.refused() ==> (self.decoded() matches Ok(samples) ==> samples.size()
                == self.byte_count()),
        ensures
            self.image_read(old(buf)@, final(buf)@, r),
    {
        if self.over_limit(buf.len()) {
            return Err(CodecError::Limits(LimitErrorKind::InsufficientMemory));
        }
        match self.decode() {
            Ok(pixels) => {
                pixels.copy_to(buf);
                Ok(())
            },
            Err(text) => Err(CodecError::Decoding(DecodingError::Psd(text))),
        }
    }

    /// Reads the image into `buf`, unless the file holds another number of samples than its
    /// header states. Then the result is `None`, and `buf` is as before.
    pub fn try_read_image(self, buf: &mut [u8]) -> (r: Option<Result<(), CodecError<E>>>)
        requires
            old(buf)@.len() == self.byte_count(),
            self.byte_count() + 20 <= isize::MAX,
        ensures
            match r {
                Some(r) => {
                    &&& self.image_read(old(buf)@, final(buf)@, r)
                    &&& !self.refused() ==> (self.decoded() matches Ok(samples) ==> samples.size()
                        == self.byte_count())
                },
                None => {
                    &&& final(buf)@ == old(buf)@
                    &&& !self.refused()
                    &&& self.decoded() matches Ok(samples) && samples.size() != self.byte_count()
                },
            },
    {
        if !self.over_limit(buf.len()) {
            if let Ok(pixels) = self.decode() {
                if !pixels.fits(buf.len()) {
                    return None;
                }
            }
        }
        Some(self.read_image(buf))
    }
}

/// The greatest width that limits allow.
fn max_width(limits: &Limits) -> (r: usize)
    ensures
        r == width_limit(*limits),
{
    match limits.max_image_width {
        Some(w) => w as usize,
        None => u32::MAX as usize,
    }
}

/// The greatest height that limits allow.
fn max_height(limits: &Limits) -> (r: usize)
    ensures
        r == height_limit(*limits),
{
    match limits.max_image_height {
        Some(h) => h as usize,
        None => u32::MAX as usize,
    }
}

} // verus!
