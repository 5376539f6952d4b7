//! Which image of a file is decoded, and what is made of it.

use vstd::prelude::*;

use super::archive;
use super::archive::SeekFrom;
use super::png;
use super::png::{PngFault, PngHeader};
use super::{OpenRasterDecoder, OraDecodeError, OraFailure, OraState};
use crate::decimal;
use crate::source::ByteSource;
use crate::types;
use crate::types::{
    CodecError, ColorType, DecodingError, ImageLayout, IoFailure, Limits, ParameterErrorKind,
};

verus! {

/// Whether a file is an archive with an entry `mimetype` of sixteen bytes, which are
/// `image/openraster`.
pub open spec fn is_openraster(file: Seq<u8>) -> bool {
    let bits = usize::BITS;
    &&& archive::zip_error(file, bits) is None
    &&& archive::zip_index(file, "mimetype"@, bits) matches Some(i) && {
        &&& archive::zip_entry_error(file, i, bits) is None
        &&& archive::zip_size(file, i, bits) == 16
        &&& archive::start_read(file, i, Seq::empty(), 16).0 == decimal::ascii(
            "image/openraster"@,
        )
    }
}

/// No more is read of the start of an entry than is asked for.
proof fn lemma_start_len(file: Seq<u8>, index: usize, lengths: Seq<nat>, left: nat)
    ensures
        archive::start_read(file, index, lengths, left).0.len() <= left,
    decreases left,
{
    let now = lengths.push(left);
    if left > 0 {
        if let Ok(bytes) = archive::zip_read(file, index, now, usize::BITS) {
            if 0 < bytes.len() <= left {
                lemma_start_len(file, index, now, (left - bytes.len()) as nat);
            }
        }
    }
}

/// Whenever a file is opened with success, what is opened is its entry `mergedimage.png`, whatever
/// other entries the archive has. It is opened if, and only if, the archive is an OpenRaster file, and
/// has that entry, and the entry can be opened.
pub proof fn law_merged_image_is_opened(file: Seq<u8>, index: usize)
    ensures
        super::merged_image(file) == Ok::<usize, OraFailure>(index) <==> {
            &&& is_openraster(file)
            &&& archive::zip_index(file, "mergedimage.png"@, usize::BITS) == Some(index)
            &&& archive::zip_entry_error(file, index, usize::BITS) is None
        },
{
    reveal_strlit("image/openraster");
    if let Some(i) = archive::zip_index(file, "mimetype"@, usize::BITS) {
        lemma_start_len(file, i, Seq::empty(), 16);
        let start = archive::start_read(file, i, Seq::empty(), 16).0;
        assert(start.len() == 16 ==> start.take(16) =~= start);
        assert(decimal::ascii("image/openraster"@).len() == 16);
    }
}

/// Why the merged image cannot be got at, and what that is reported as. A file that is not an archive,
/// that does not say that it is an OpenRaster file, or that has no merged image, is not in the form that
/// the format asks for. Entries that cannot be read are failures of reading.
pub proof fn law_files_are_refused<E>(file: Seq<u8>, failure: OraFailure, e: CodecError<E>)
    requires
        super::merged_image(file) == Err::<usize, OraFailure>(failure),
        super::is_failure(e, failure),
    ensures
        ({
            let bits = usize::BITS;
            let type_index = archive::zip_index(file, "mimetype"@, bits);
            let image_index = archive::zip_index(file, "mergedimage.png"@, bits);
            match archive::zip_error(file, bits) {
                Some(text) => e matches CodecError::Decoding(
                    DecodingError::OpenRaster(OraDecodeError::Archive(s)),
                ) && s@ == text,
                None => match type_index {
                    None => e == CodecError::<E>::Decoding(
                        DecodingError::OpenRaster(OraDecodeError::MissingMimetype),
                    ),
                    Some(i) => match archive::zip_entry_error(file, i, bits) {
                        Some((text, _)) => e matches CodecError::Decoding(
                            DecodingError::OpenRaster(OraDecodeError::Entry(s)),
                        ) && s@ == text,
                        None => if archive::start_read(file, i, Seq::empty(), 16).0.len() < 16 {
                            match archive::start_read(file, i, Seq::empty(), 16).1 {
                                None => e == CodecError::<E>::IoError(IoFailure::UnexpectedEof),
                                Some(fault) => e matches CodecError::IoError(f)
                                    && super::is_entry_failure(f, fault),
                            }
                        } else if !is_openraster(file) {
                            e == CodecError::<E>::Decoding(
                                DecodingError::OpenRaster(OraDecodeError::WrongMimetype),
                            )
                        } else {
                            match image_index {
                                None => e == CodecError::<E>::Decoding(
                                    DecodingError::OpenRaster(OraDecodeError::MissingMergedImage),
                                ),
                                Some(j) => archive::zip_entry_error(file, j, bits) matches Some(
                                    (_, text),
                                ) && (e matches CodecError::IoError(IoFailure::Other(s)) && s@
                                    == "failed to open: "@ + text),
                            }
                        },
                    },
                },
            }
        }),
{
    reveal_strlit("image/openraster");
    if let Some(i) = archive::zip_index(file, "mimetype"@, usize::BITS) {
        lemma_start_len(file, i, Seq::empty(), 16);
        let start = archive::start_read(file, i, Seq::empty(), 16).0;
        assert(start.len() == 16 ==> start.take(16) =~= start);
        assert(decimal::ascii("image/openraster"@).len() == 16);
    }
}

/// What is wrong with an entry is reported with the kind and the text of the error.
pub proof fn law_entry_failures<E>(
    e: IoFailure<E>,
    kind: std::io::ErrorKind,
    text: Seq<char>,
)
    requires
        super::is_entry_failure(e, archive::EntryFault::Io(kind, text)),
    ensures
        e matches IoFailure::Failed(k, s) && k == kind && s@ == text,
{
}

/// The pixels of an image have as many channels as the header of the image states, and their samples
/// have two bytes if a pixel has twice as many bytes as channels. The size is that of the header.
pub proof fn law_layout_of_a_header(header: PngHeader)
    requires
        1 <= header.channels <= 4,
        header.pixel_bytes == header.channels || header.pixel_bytes == 2 * header.channels,
    ensures
        header.layout().width == header.width,
        header.layout().height == header.height,
        header.layout().color.channels() == header.channels,
        header.layout().color.pixel_bytes() == header.pixel_bytes,
        header.layout().color.is_deep() <==> header.pixel_bytes == 2 * header.channels,
{
}

/// The colour type of a file is called as that of the image.
pub proof fn law_colour_types(color: ColorType)
    ensures
        super::extended(color) is L8 <==> color is L8,
        super::extended(color) is La8 <==> color is La8,
        super::extended(color) is Rgb8 <==> color is Rgb8,
        super::extended(color) is Rgba8 <==> color is Rgba8,
        super::extended(color) is L16 <==> color is L16,
        super::extended(color) is La16 <==> color is La16,
        super::extended(color) is Rgb16 <==> color is Rgb16,
        super::extended(color) is Rgba16 <==> color is Rgba16,
{
}

/// The limits within which the merged image of a decoder is going to be decoded: those that have been
/// set, if any have.
pub open spec fn limits_of<E>(d: OpenRasterDecoder<E>) -> Limits {
    match d.limits {
        Some(limits) => limits,
        None => Limits { max_image_width: None, max_image_height: None, max_alloc: None },
    }
}

/// The layout of a file is that of the entry `mergedimage.png` of the archive: it succeeds where the
/// header of that image can be read, within the limits that have been set, and the size is that of the
/// header. An error of the reader is reported as one of opening the archive.
pub proof fn law_layout_of_a_file<E>(
    source: ByteSource<E>,
    before: OpenRasterDecoder<E>,
    after: OpenRasterDecoder<E>,
    r: Result<ImageLayout, CodecError<E>>,
    index: usize,
)
    requires
        before.state == OraState::Init(source),
        OpenRasterDecoder::peeked(before, after, r),
    ensures
        source.fault matches Some(f) ==> r == Err::<ImageLayout, CodecError<E>>(
            CodecError::Decoding(DecodingError::OpenRasterReader(f)),
        ),
        r is Ok ==> source.fault is None && is_openraster(source.rest()) && archive::zip_index(
            source.rest(),
            "mergedimage.png"@,
            usize::BITS,
        ) is Some,
        source.fault is None && is_openraster(source.rest()) && archive::zip_index(
            source.rest(),
            "mergedimage.png"@,
            usize::BITS,
        ) == Some(index) && archive::zip_entry_error(source.rest(), index, usize::BITS) is None ==> {
            let png = archive::entry_contents(source.rest(), index)->Ok_0.1;
            &&& after.opened(source.rest(), index, limits_of(before), false)
            &&& r is Ok <==> png::png_header(png, limits_of(before), usize::BITS) is Ok
            &&& r matches Ok(layout) ==> {
                let header = png::png_header(png, limits_of(before), usize::BITS)->Ok_0;
                &&& layout.width == header.width
                &&& layout.height == header.height
                &&& 1 <= header.channels <= 4 && (header.pixel_bytes == header.channels
                    || header.pixel_bytes == 2 * header.channels) ==> {
                    &&& layout.color.channels() == header.channels
                    &&& layout.color.pixel_bytes() == header.pixel_bytes
                }
            }
        },
{
    let file = source.rest();
    law_merged_image_is_opened(file, index);
    if super::merged_image(file) is Ok {
        law_merged_image_is_opened(file, super::merged_image(file)->Ok_0);
    }
    let png = archive::entry_contents(file, index)->Ok_0.1;
    if let Ok(header) = png::png_header(png, limits_of(before), usize::BITS) {
        if 1 <= header.channels <= 4 && (header.pixel_bytes == header.channels || header.pixel_bytes
            == 2 * header.channels) {
            law_layout_of_a_header(header);
        }
    }
}

/// Asking for the layout again gives the same, and changes nothing. Where the file could not be opened,
/// there is no more.
pub proof fn law_peeking_again<E>(
    before: OpenRasterDecoder<E>,
    between: OpenRasterDecoder<E>,
    after: OpenRasterDecoder<E>,
    r1: Result<ImageLayout, CodecError<E>>,
    r2: Result<ImageLayout, CodecError<E>>,
)
    requires
        OpenRasterDecoder::peeked(before, between, r1),
        OpenRasterDecoder::peeked(between, after, r2),
    ensures
        after == between,
        r1 is Ok ==> r2 == r1,
        between.state is Failed ==> r2 == Err::<ImageLayout, CodecError<E>>(
            CodecError::Parameter(ParameterErrorKind::NoMoreData),
        ),
{
}

/// The pixels of a file are those of the entry `mergedimage.png` of the archive, decoded within the
/// limits that have been set. Samples of two bytes, which come with the more significant one first, are
/// stored in the order of this machine.
pub proof fn law_pixels_of_a_file<E>(
    source: ByteSource<E>,
    before: OpenRasterDecoder<E>,
    buf0: Seq<u8>,
    after: OpenRasterDecoder<E>,
    buf1: Seq<u8>,
    r: Result<(), CodecError<E>>,
    index: usize,
    i: int,
)
    requires
        before.state == OraState::Init(source),
        OpenRasterDecoder::image_read(before, buf0, after, buf1, r),
    ensures
        r is Ok ==> source.fault is None && is_openraster(source.rest()) && archive::zip_index(
            source.rest(),
            "mergedimage.png"@,
            usize::BITS,
        ) is Some,
        source.fault is None && is_openraster(source.rest()) && archive::zip_index(
            source.rest(),
            "mergedimage.png"@,
            usize::BITS,
        ) == Some(index) && archive::zip_entry_error(source.rest(), index, usize::BITS) is None ==> {
            let png = archive::entry_contents(source.rest(), index)->Ok_0.1;
            let header = png::png_header(png, limits_of(before), usize::BITS);
            let pixels = png::png_pixels(png, limits_of(before), usize::BITS);
            &&& r is Ok <==> header is Ok && pixels is Ok
            &&& header is Err ==> buf1 == buf0
            &&& r is Ok ==> buf1.len() == buf0.len()
            &&& r is Ok && (header->Ok_0.pixel_bytes == header->Ok_0.channels
                || types::machine_order() is Big) ==> buf1 == pixels->Ok_0
            &&& r is Ok && header->Ok_0.pixel_bytes != header->Ok_0.channels
                && types::machine_order() is Little && 0 <= i && 2 * i + 1 < pixels->Ok_0.len() ==> {
                &&& buf1[2 * i] == pixels->Ok_0[2 * i + 1]
                &&& buf1[2 * i + 1] == pixels->Ok_0[2 * i]
            }
        },
{
    let file = source.rest();
    law_merged_image_is_opened(file, index);
    if super::merged_image(file) is Ok {
        law_merged_image_is_opened(file, super::merged_image(file)->Ok_0);
    }
    assert((2 * i) % 2 == 0 && (2 * i + 1) % 2 == 1);
}

/// What the PNG decoder reports stays of the kind that it is: of the form of the image, of the use of
/// the decoder, of a limit, or of a feature. Where the image ends too early because of an error in the
/// archive, that error is reported.
pub proof fn law_png_errors<E>(
    e: CodecError<E>,
    fault: PngFault,
    failure: Option<archive::EntryFault>,
)
    requires
        super::is_png_error(e, fault, failure),
    ensures
        fault is Decoding <==> e is Decoding,
        fault is Parameter <==> e is Parameter,
        fault is Limits <==> e is Limits,
        fault is Unsupported <==> e is Unsupported,
        fault is Eof || fault is Io <==> e is IoError,
        fault is Eof && failure is None ==> e == CodecError::<E>::IoError(IoFailure::UnexpectedEof),
        fault is Eof && failure is Some ==> (e matches CodecError::IoError(f)
            && super::is_entry_failure(f, failure->0)),
{
}

/// Positions in an entry count from its start, from its end, or from the current position, and are not
/// negative, nor greater than 64 bits can tell.
pub proof fn law_positions(position: u64, size: u64, offset: u64, step: i64)
    ensures
        super::archive::seek_target(SeekFrom::Start(offset), position, size) == Some(offset),
        super::archive::seek_target(SeekFrom::Current(0), position, size) == Some(position),
        super::archive::seek_target(SeekFrom::End(0), position, size) == Some(size),
        super::archive::seek_target(SeekFrom::Current(step), position, size) matches Some(p) ==> p
            - position == step,
        super::archive::seek_target(SeekFrom::End(step), position, size) matches Some(p) ==> p
            - size == step,
        super::archive::seek_target(SeekFrom::Current(step), position, size) is None <==> position
            + step < 0 || position + step > 0xffff_ffff_ffff_ffff,
        super::archive::seek_target(SeekFrom::End(step), position, size) is None <==> size + step
            < 0 || size + step > 0xffff_ffff_ffff_ffff,
{
}

/// An entry is read 8192 bytes at a time, and its bytes are those that come, one chunk behind the
/// other.
pub proof fn law_chunks(file: Seq<u8>, index: usize, k: nat)
    ensures
        archive::chunk(file, index, k) == archive::zip_read(
            file,
            index,
            Seq::new(k + 1, |i: int| 8192nat),
            usize::BITS,
        ),
        archive::chunks(file, index, 0).len() == 0,
        archive::chunk(file, index, k) matches Ok(bytes) ==> archive::chunks(file, index, k + 1)
            == archive::chunks(file, index, k) + bytes,
{
    assert(Seq::new(k + 1, |i: int| archive::CHUNK as nat) =~= Seq::new(
        k + 1,
        |i: int| 8192nat,
    ));
}

/// Limits that are set before the file is opened apply to the merged image, the last ones that are set.
/// Setting them succeeds, and reads nothing.
pub proof fn law_limits_apply<E>(
    source: ByteSource<E>,
    before: OpenRasterDecoder<E>,
    limits: Limits,
    between: OpenRasterDecoder<E>,
    set: Result<(), CodecError<E>>,
    after: OpenRasterDecoder<E>,
    r: Result<ImageLayout, CodecError<E>>,
    index: usize,
)
    requires
        before.state == OraState::Init(source),
        OpenRasterDecoder::limited(before, limits, between, set),
        OpenRasterDecoder::peeked(between, after, r),
    ensures
        set is Ok,
        between.state == before.state,
        source.fault is None && is_openraster(source.rest()) && archive::zip_index(
            source.rest(),
            "mergedimage.png"@,
            usize::BITS,
        ) == Some(index) && archive::zip_entry_error(source.rest(), index, usize::BITS) is None ==> {
            let png = archive::entry_contents(source.rest(), index)->Ok_0.1;
            &&& r is Ok <==> png::png_header(png, limits, usize::BITS) is Ok
            &&& after.opened(source.rest(), index, limits, false)
        },
{
    law_layout_of_a_file(source, between, after, r, index);
}

/// Once the file has been opened, setting limits only checks the size of the merged image.
pub proof fn law_limits_come_late<E>(
    before: OpenRasterDecoder<E>,
    limits: Limits,
    after: OpenRasterDecoder<E>,
    r: Result<(), CodecError<E>>,
    header: PngHeader,
)
    requires
        before.state is Main,
        png::png_header(
            before.state->Main_0.contents().1,
            before.state->Main_1,
            usize::BITS,
        ) == Ok::<PngHeader, PngFault>(header),
        OpenRasterDecoder::limited(before, limits, after, r),
    ensures
        after == before,
        ({
            let too_wide = limits.max_image_width matches Some(w) && header.width > w;
            let too_high = limits.max_image_height matches Some(h) && header.height > h;
            r == (if too_wide || too_high {
                Err::<(), CodecError<E>>(CodecError::Limits(types::LimitErrorKind::DimensionError))
            } else {
                Ok(())
            })
        }),
{
}

} // verus!
