//! Which images are decoded, and how their samples are stored.

use vstd::prelude::*;

use super::{PsdColorSpace, PsdDecoder, PsdHeader, PsdPixels, PsdSamples};
use crate::source::ByteSource;
use crate::types;
use crate::types::{
    ByteOrder, CodecError, ColorType, DecodingError, IoFailure, LimitErrorKind, Limits,
    UnsupportedFeature,
};

verus! {

/// The number of channels of a colour space, where it is one that is decoded.
pub open spec fn channels_of(space: PsdColorSpace) -> Option<nat> {
    match space {
        PsdColorSpace::Luma => Some(1),
        PsdColorSpace::LumaA => Some(2),
        PsdColorSpace::RGB => Some(3),
        PsdColorSpace::RGBA => Some(4),
        _ => None,
    }
}

/// Every header whose sizes have 32 bits, and whose colour space is decoded, means an image of exactly
/// that size, with samples of as many bits, and with the channels of the colour space. Only grey images
/// with samples of 16 bits are taken to have an alpha channel besides. Other sizes are refused, and so,
/// if the size is not, are other colour spaces.
pub proof fn law_meaning_of_headers<E>(header: PsdHeader)
    ensures
        header.width >= 0x1_0000_0000 || header.height >= 0x1_0000_0000 ==> super::image_of::<E>(
            header,
        ) == Err::<((u32, u32), ColorType), CodecError<E>>(
            CodecError::Limits(LimitErrorKind::DimensionError),
        ),
        header.width < 0x1_0000_0000 && header.height < 0x1_0000_0000 ==> match channels_of(
            header.color_space,
        ) {
            Some(n) => super::image_of::<E>(header) matches Ok(((width, height), color)) && {
                &&& width == header.width
                &&& height == header.height
                &&& color.is_deep() == (header.bit_depth is Sixteen)
                &&& color.channels() == (if n == 1 && header.bit_depth is Sixteen {
                    2
                } else {
                    n
                })
            },
            None => super::image_of::<E>(header) == Err::<((u32, u32), ColorType), CodecError<E>>(
                CodecError::Unsupported(
                    UnsupportedFeature::PsdColor(header.color_space, header.bit_depth),
                ),
            ),
        },
{
}

/// What opening a file gives. It is refused for want of memory only where it has more bytes than the
/// limits allow. An error of the reader is reported. Else the header is read, where the image may be as
/// wide and as high as the limits allow, or as 32 bits can tell; and if that succeeds, the image has
/// exactly the size that the header states.
pub proof fn law_opening_a_file<E>(
    source: ByteSource<E>,
    limits: Limits,
    res: Result<PsdDecoder<E>, CodecError<E>>,
)
    requires
        source.wf(),
        PsdDecoder::loaded(source, limits, res),
    ensures
        limits.max_alloc matches Some(max) && source.rest().len() > max ==> res == Err::<
            PsdDecoder<E>,
            CodecError<E>,
        >(CodecError::Limits(LimitErrorKind::InsufficientMemory)),
        ({
            let small = limits.max_alloc matches Some(max) ==> source.rest().len() <= max;
            let widest = match limits.max_image_width {
                Some(w) => w as usize,
                None => 0xffff_ffff,
            };
            let highest = match limits.max_image_height {
                Some(h) => h as usize,
                None => 0xffff_ffff,
            };
            let header = super::psd_header(
                super::readable(source.rest()),
                widest,
                highest,
                usize::BITS,
            );
            &&& small && source.fault is Some ==> res == Err::<PsdDecoder<E>, CodecError<E>>(
                CodecError::IoError(IoFailure::Reader(source.fault->0)),
            )
            &&& small && source.fault is None ==> match header {
                Err(text) => res matches Err(CodecError::Decoding(DecodingError::Psd(s))) && s@
                    == text,
                Ok(h) => if h.width >= 0x1_0000_0000 || h.height >= 0x1_0000_0000 {
                    res == Err::<PsdDecoder<E>, CodecError<E>>(
                        CodecError::Limits(LimitErrorKind::DimensionError),
                    )
                } else {
                    match channels_of(h.color_space) {
                        None => res == Err::<PsdDecoder<E>, CodecError<E>>(
                            CodecError::Unsupported(
                                UnsupportedFeature::PsdColor(h.color_space, h.bit_depth),
                            ),
                        ),
                        Some(n) => res matches Ok(d) && {
                            &&& d.size().0 == h.width
                            &&& d.size().1 == h.height
                            &&& d.color().is_deep() == (h.bit_depth is Sixteen)
                            &&& d.color().channels() == (if n == 1 && h.bit_depth is Sixteen {
                                2
                            } else {
                                n
                            })
                            &&& d.file() == super::readable(source.rest())
                            &&& d.limits_set() == limits
                        },
                    }
                },
            }
        }),
{
    let header = super::psd_header(
        super::readable(source.rest()),
        super::width_limit(limits),
        super::height_limit(limits),
        usize::BITS,
    );
    if header is Ok {
        law_meaning_of_headers::<E>(header->Ok_0);
    }
}

/// An image is refused where it, the file, and one byte more reach the limit on memory, or what 64 bits
/// can count where there is none. An image that is refused is not read, and one that is read is not
/// refused.
pub proof fn law_reading_an_image<E>(
    d: PsdDecoder<E>,
    before: Seq<u8>,
    after: Seq<u8>,
    r: Result<(), CodecError<E>>,
)
    requires
        d.image_read(before, after, r),
    ensures
        ({
            let pixel = d.color().channels() * (if d.color().is_deep() {
                2nat
            } else {
                1nat
            });
            let needed = d.size().0 * d.size().1 * pixel + d.file().len() + 1;
            let limit = match d.limits_set().max_alloc {
                Some(max) => max as int,
                None => 0xffff_ffff_ffff_ffff,
            };
            &&& needed >= limit <==> r == Err::<(), CodecError<E>>(
                CodecError::Limits(LimitErrorKind::InsufficientMemory),
            )
            &&& r is Err ==> after == before
            &&& r is Ok <==> needed < limit && d.decoded() is Ok
            &&& r is Ok ==> d.decoded()->Ok_0.stored(after)
        }),
{
}

/// Samples of one byte are stored as they are. Those of two bytes are stored in the order of this
/// machine, so that it sees the numbers that it has decoded.
pub proof fn law_samples_are_stored(pixels: PsdPixels, bytes: Seq<u8>, i: int)
    requires
        pixels.stored(bytes),
        0 <= i,
    ensures
        bytes.len() == pixels.size(),
        match pixels {
            PsdPixels::U8(v) => i < v@.len() ==> bytes[i] == v@[i],
            PsdPixels::U16(v) => i < v@.len() ==> v@[i] == (match types::machine_order() {
                ByteOrder::Little => bytes[2 * i] + 256 * bytes[2 * i + 1],
                ByteOrder::Big => 256 * bytes[2 * i] + bytes[2 * i + 1],
            }),
        },
{
    if let PsdPixels::U16(v) = pixels {
        if i < v@.len() {
            assert((2 * i) / 2 == i && (2 * i) % 2 == 0);
            assert((2 * i + 1) / 2 == i && (2 * i + 1) % 2 == 1);
            assert(bytes[2 * i] == types::sample_byte(types::machine_order(), v@[i], 0));
            assert(bytes[2 * i + 1] == types::sample_byte(types::machine_order(), v@[i], 1));
        }
    }
}

/// What is stored of the samples of a file are those that this machine sees.
pub proof fn law_samples_of_a_file(samples: PsdSamples, bytes: Seq<u8>, i: int)
    requires
        samples.stored(bytes),
        0 <= i,
    ensures
        match samples {
            PsdSamples::U8(v) => bytes == v,
            PsdSamples::U16(little, big) => match types::machine_order() {
                ByteOrder::Little => {
                    &&& bytes.len() == 2 * little.len()
                    &&& i < little.len() ==> little[i] == bytes[2 * i] + 256 * bytes[2 * i + 1]
                },
                ByteOrder::Big => {
                    &&& bytes.len() == 2 * big.len()
                    &&& i < big.len() ==> big[i] == 256 * bytes[2 * i] + bytes[2 * i + 1]
                },
            },
        },
{
    if let PsdSamples::U16(little, big) = samples {
        let v = match types::machine_order() {
            ByteOrder::Little => little,
            ByteOrder::Big => big,
        };
        if i < v.len() {
            assert((2 * i) / 2 == i && (2 * i) % 2 == 0);
            assert((2 * i + 1) / 2 == i && (2 * i + 1) % 2 == 1);
            assert(bytes[2 * i] == types::sample_byte(types::machine_order(), v[i], 0));
            assert(bytes[2 * i + 1] == types::sample_byte(types::machine_order(), v[i], 1));
        }
    }
}

} // verus!
