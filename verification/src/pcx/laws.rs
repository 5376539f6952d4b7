//! What the bytes of a file say of the image in it.

use vstd::prelude::*;

use super::{PCXDecoder, PcxHeader};
use crate::types::{CodecError, ExtendedColorType, ImageLayout, IoFailure, ParameterErrorKind};

verus! {

/// The number that two bytes of a file stand for, the less significant one first.
pub open spec fn number_at(file: Seq<u8>, at: int) -> int {
    file[at] + 256 * file[at + 1]
}

/// The size of an image is what the header states: from the least column to the greatest one, and from
/// the least row to the greatest one, both of which belong to the image. Its pixels have three samples
/// of one byte each. A header that is accepted states that with its bytes, has the byte of the format
/// in front, and a known version and encoding.
pub proof fn law_layout_of_a_header(file: Seq<u8>)
    requires
        super::header_of(file) is Ok,
    ensures
        ({
            let header = super::header_of(file)->Ok_0;
            let layout = header.layout();
            &&& file.len() >= 128
            &&& file[0] == 10
            &&& file[1] == 0 || 2 <= file[1] <= 5
            &&& file[2] <= 1
            &&& layout.width == number_at(file, 8) - number_at(file, 4) + 1
            &&& layout.height == number_at(file, 10) - number_at(file, 6) + 1
            &&& 1 <= layout.width <= 65535
            &&& 1 <= layout.height <= 65535
            &&& layout.color.channels() == 3
            &&& !layout.color.is_deep()
            &&& header.bit_depth == file[3]
            &&& header.number_of_color_planes == file[65]
            &&& 8 * number_at(file, 66) >= layout.width * file[3]
        }),
{
    let header = super::header_of(file)->Ok_0;
    let lane = number_at(file, 66);
    let bits = header.width * file[3];
    assert((bits + 7) / 8 <= lane);
}

/// A header is accepted where it states a size that is not empty, and rows that are long enough, for an
/// image of three planes of 8 bits, of one plane of 1, 2, 4 or 8 bits, or of two to four planes of one
/// bit.
pub proof fn law_headers_are_accepted(file: Seq<u8>)
    requires
        file.len() >= 128,
        file[0] == 10,
        file[1] == 0 || 2 <= file[1] <= 5,
        file[2] <= 1,
        1 <= number_at(file, 8) - number_at(file, 4) + 1 <= 65535,
        1 <= number_at(file, 10) - number_at(file, 6) + 1 <= 65535,
        ({
            let planes = file[65];
            let bits = file[3];
            ||| planes == 3 && bits == 8
            ||| planes == 1 && (bits == 1 || bits == 2 || bits == 4 || bits == 8)
            ||| (planes == 2 || planes == 3 || planes == 4) && bits == 1
        }),
        8 * number_at(file, 66) >= (number_at(file, 8) - number_at(file, 4) + 1) * file[3],
    ensures
        super::header_of(file) is Ok,
{
    let bits = (number_at(file, 8) - number_at(file, 4) + 1) * file[3];
    assert((bits + 7) / 8 <= number_at(file, 66));
}

/// An image has no palette if its pixels have 24 bits. Else it has as many colours as the bits of a
/// pixel can tell apart, and its own colour type is told by the bits of a plane.
pub proof fn law_palettes(file: Seq<u8>)
    requires
        super::header_of(file) is Ok,
    ensures
        ({
            let header = super::header_of(file)->Ok_0;
            let bits = header.number_of_color_planes * header.bit_depth;
            &&& header.palette_length is None <==> bits == 24
            &&& header.palette_length matches Some(colors) ==> {
                &&& bits == 1 && colors == 2 || bits == 2 && colors == 4 || bits == 3 && colors == 8
                    || bits == 4 && colors == 16 || bits == 8 && colors == 256
                &&& header.color_type() == ExtendedColorType::Unknown(file[3])
            }
            &&& header.palette_length is None ==> header.color_type() == ExtendedColorType::Rgb8
        }),
{
    let planes = file[65] as int;
    let depth = file[3] as int;
    assert(planes == 3 ==> planes * depth == 3 * depth) by (nonlinear_arith);
    assert(planes == 1 ==> planes * depth == depth) by (nonlinear_arith);
    assert(depth == 1 ==> planes * depth == planes) by (nonlinear_arith);
}

/// Asking for the layout of a file gives that of its header, again and again, and leaves the file to be
/// read. Where the header is refused, or the image has been read, there is no more.
pub proof fn law_peeking<E>(
    before: PCXDecoder<E>,
    between: PCXDecoder<E>,
    after: PCXDecoder<E>,
    r1: Result<ImageLayout, CodecError<E>>,
    r2: Result<ImageLayout, CodecError<E>>,
)
    requires
        PCXDecoder::peeked(before, between, r1),
        PCXDecoder::peeked(between, after, r2),
    ensures
        before matches PCXDecoder::Init(source) ==> {
            &&& r1 is Ok <==> super::header_of(source.rest()) is Ok
            &&& r1 matches Ok(layout) ==> {
                let file = source.rest();
                &&& layout.width == number_at(file, 8) - number_at(file, 4) + 1
                &&& layout.height == number_at(file, 10) - number_at(file, 6) + 1
                &&& layout.color.channels() == 3
                &&& !layout.color.is_deep()
                &&& between.opened(file, source.fault)
            }
        },
        r1 is Ok ==> r2 == r1 && after == between,
        r1 is Err ==> r2 == Err::<ImageLayout, CodecError<E>>(
            CodecError::Parameter(ParameterErrorKind::NoMoreData),
        ),
{
    if let PCXDecoder::Init(source) = before {
        if super::header_of(source.rest()) is Ok {
            law_layout_of_a_header(source.rest());
        }
    }
}

/// The colour that a file states for a palette index, and channel: black and white, where there are two
/// colours; else a sample of the palette in the header, or, where there are 256, of the one at the end
/// of the file.
pub open spec fn color_at(file: Seq<u8>, colors: u16, index: u8, c: int) -> u8 {
    if colors == 2 {
        if index == 0 {
            0
        } else {
            255
        }
    } else if colors == 256 {
        file.skip(file.len() - 768)[3 * index + c]
    } else {
        file[16 + 3 * index + c]
    }
}

/// Where an image has been read, the pixel in column `x` of row `y` stands behind the `y` rows above it
/// and the `x` pixels before it, each row being as wide as the layout states. Its samples are those of
/// its row in the file, or those of the colour that is stated there.
pub proof fn law_pixels_of_a_file<E>(
    source: crate::source::ByteSource<E>,
    buf0: Seq<u8>,
    buf1: Seq<u8>,
    layout: ImageLayout,
    after: PCXDecoder<E>,
    x: int,
    y: nat,
    c: int,
)
    requires
        PCXDecoder::peeked(PCXDecoder::Init(source), after, Ok(layout)),
        PCXDecoder::taken(PCXDecoder::Init(source), buf0, buf1, Ok(())),
        buf0.len() == 3 * (layout.width * layout.height),
        0 <= x < layout.width,
        y < layout.height,
        0 <= c < 3,
    ensures
        buf1.len() == buf0.len(),
        ({
            let file = source.rest();
            let header = super::header_of(file)->Ok_0;
            buf1[3 * (layout.width * y + x) + c] == (match header.palette_length {
                None => super::pcx_rgb_row(file, y)->0[3 * x + c],
                Some(colors) => color_at(file, colors, super::pcx_index_row(file, y)->0[x], c),
            })
        }),
{
    let file = source.rest();
    let header = super::header_of(file)->Ok_0;
    let w = layout.width as int;
    let h = layout.height as int;
    law_palettes(file);
    assert(w * h * 3 == 3 * (w * h)) by (nonlinear_arith);
    assert(header.layout().color.pixel_bytes() == 3);
    super::law_pixels_in_place(file, header, source.fault, buf0, buf1, x, y, c);
    match header.palette_length {
        None => {},
        Some(colors) => {
            let rows = super::rows_available(file, true, 0, header.height as nat);
            assert(super::pcx_index_row(file, y) is Some);
            let row = super::pcx_index_row(file, y)->0;
            let index = row[x];
            assert(index < colors);
            super::lemma_index_rows(file, header, header.height as nat);
            let palette = super::palette_of(
                file,
                super::pcx_bytes_after(file, header.height as nat),
                colors,
            )->0;
            if colors == 2 {
                assert(palette =~= seq![0u8, 0u8, 0u8, 255u8, 255u8, 255u8]);
            } else if colors < 256 {
                assert(palette[3 * index + c] == file[16 + (3 * index + c)]);
            }
        },
    }
}

/// Reading an image succeeds only where all its rows are there and, where it has 256 colours, the
/// palette: 768 bytes at the end of the file, behind the rows, with the byte 12 before them. Where a row
/// is missing, the error is that of the reader, or that there is no more.
pub proof fn law_missing_parts_are_refused<E>(
    file: Seq<u8>,
    header: PcxHeader,
    fault: Option<E>,
    before: Seq<u8>,
    after: Seq<u8>,
    r: Result<(), CodecError<E>>,
    y: nat,
)
    requires
        super::image_read(file, header, fault, before, after, r),
        y < header.height,
    ensures
        ({
            let missing = match header.palette_length {
                None => super::pcx_rgb_row(file, y) is None,
                Some(_) => super::pcx_index_row(file, y) is None,
            };
            &&& missing ==> r == Err::<(), CodecError<E>>(
                CodecError::IoError(
                    match fault {
                        Some(f) => IoFailure::Reader(f),
                        None => IoFailure::UnexpectedEof,
                    },
                ),
            )
            &&& header.palette_length == Some(256u16) && r is Ok ==> {
                &&& fault is None
                &&& super::pcx_bytes_after(file, header.height as nat) >= 769
                &&& file[file.len() - 769] == 12
            }
            &&& header.palette_length is Some && r is Err ==> after == before
        }),
{
    super::lemma_rows_available(file, header.palette_length is Some, 0, header.height as nat);
}

/// Of an image without a palette, the rows before the first one that is missing are read, whether
/// reading succeeds or not. Behind that row, the buffer is left as it was.
pub proof fn law_rows_before_a_missing_one<E>(
    file: Seq<u8>,
    header: PcxHeader,
    fault: Option<E>,
    before: Seq<u8>,
    after: Seq<u8>,
    r: Result<(), CodecError<E>>,
    x: int,
    y: nat,
    c: int,
    missing: nat,
)
    requires
        header.palette_length is None,
        super::image_read(file, header, fault, before, after, r),
        before.len() == header.layout().byte_count(),
        missing <= header.height,
        forall|k: nat| k < missing ==> (#[trigger] super::pcx_rgb_row(file, k)) is Some,
        missing < header.height ==> super::pcx_rgb_row(file, missing) is None,
        0 <= x < header.width,
        y < header.height,
        0 <= c < 3,
    ensures
        y < missing ==> after[3 * (header.width * y + x) + c] == super::pcx_rgb_row(
            file,
            y,
        )->0[3 * x + c],
        y > missing ==> after[3 * (header.width * y + x) + c] == before[3 * (header.width * y + x)
            + c],
        r is Ok <==> missing == header.height,
{
    let w = header.width as int;
    let h = header.height as nat;
    let rows = super::rows_available(file, false, 0, h);
    super::lemma_rows_available(file, false, 0, h);
    lemma_first_missing(file, 0, h, missing);
    assert(rows == missing);
    super::lemma_len(header, before.len() as int);
    let q = (3 * w) * y + (3 * x + c);
    assert(q == 3 * (w * y + x) + c) by (nonlinear_arith)
        requires
            q == (3 * w) * y + (3 * x + c),
    ;
    super::lemma_place(3 * w, y as int, 3 * x + c, h as int);
    if y < missing {
        super::lemma_rgb_rows(file, header, rows);
        super::lemma_place(3 * w, y as int, 3 * x + c, rows as int);
        assert((3 * w) * rows <= (3 * w) * h) by (nonlinear_arith)
            requires
                rows <= h,
                w >= 0,
        ;
        assert(super::rgb_rows(file, rows)[(3 * w) * y + (3 * x + c)] == super::pcx_rgb_row(
            file,
            y,
        )->0[3 * x + c]);
        assert(after.take((3 * w) * rows)[q] == after[q]);
    } else if y > missing {
        let from = (3 * w) * (rows + 1);
        assert(from <= (3 * w) * y && 0 <= from) by (nonlinear_arith)
            requires
                from == (3 * w) * (rows + 1),
                rows + 1 <= y,
                rows >= 0,
                w >= 0,
        ;
        assert(after.skip(from)[q - from] == after[q]);
        assert(before.skip(from)[q - from] == before[q]);
    }
}

/// The first row that is missing is found.
proof fn lemma_first_missing(file: Seq<u8>, row: nat, height: nat, missing: nat)
    requires
        row <= missing <= height,
        forall|k: nat| row <= k < missing ==> (#[trigger] super::pcx_rgb_row(file, k)) is Some,
        missing < height ==> super::pcx_rgb_row(file, missing) is None,
    ensures
        super::rows_available(file, false, row, height) == missing,
    decreases height - row,
{
    if row < missing {
        assert(super::pcx_rgb_row(file, row) is Some);
        lemma_first_missing(file, row + 1, height, missing);
    }
}

/// Whether a row of an image, with or without a palette, is there.
pub open spec fn has_row(file: Seq<u8>, paletted: bool, y: nat) -> bool {
    if paletted {
        super::pcx_index_row(file, y) is Some
    } else {
        super::pcx_rgb_row(file, y) is Some
    }
}

/// Reading an image succeeds where all its rows are there and, if it has 256 colours, the palette at the
/// end of the file, which the reader has to reach without an error. Small palettes are in the header, so
/// that an error of the reader behind the rows does not matter then, nor where there is no palette.
pub proof fn law_whole_images_are_read<E>(
    file: Seq<u8>,
    header: PcxHeader,
    fault: Option<E>,
    before: Seq<u8>,
    after: Seq<u8>,
    r: Result<(), CodecError<E>>,
)
    requires
        super::header_of(file) == Ok::<PcxHeader, Option<Seq<char>>>(header),
        super::image_read(file, header, fault, before, after, r),
        forall|y: nat|
            y < header.height ==> #[trigger] has_row(file, header.palette_length is Some, y),
    ensures
        r is Ok <==> header.palette_length != Some(256u16) || (fault is None
            && super::pcx_bytes_after(file, header.height as nat) >= 769 && file[file.len() - 769]
            == 12),
        header.palette_length == Some(256u16) ==> (fault matches Some(f) ==> r == Err::<
            (),
            CodecError<E>,
        >(CodecError::IoError(IoFailure::Reader(f)))),
        header.palette_length == Some(256u16) && fault is None && r is Err ==> (
        r->Err_0 matches CodecError::IoError(IoFailure::InvalidData(text)) && text@
            == "no 256-color palette"@),
{
    law_palettes(file);
    lemma_none_missing(file, header.palette_length is Some, 0, header.height as nat);
}

/// Where no row is missing, all can be read.
proof fn lemma_none_missing(file: Seq<u8>, paletted: bool, row: nat, height: nat)
    requires
        forall|y: nat|
            row <= y < height ==> #[trigger] has_row(file, paletted, y),
        row <= height,
    ensures
        super::rows_available(file, paletted, row, height) == height,
    decreases height - row,
{
    if row < height {
        assert(has_row(file, paletted, row));
        lemma_none_missing(file, paletted, row + 1, height);
    }
}

/// A header that makes no sense is refused with the text that says why, and one that ends too early with
/// the error of the reader, or that there is no more. Then there is nothing left.
pub proof fn law_headers_are_refused<E>(
    source: crate::source::ByteSource<E>,
    after: PCXDecoder<E>,
    r: Result<ImageLayout, CodecError<E>>,
)
    requires
        PCXDecoder::peeked(PCXDecoder::Init(source), after, r),
    ensures
        match super::header_of(source.rest()) {
            Ok(_) => r is Ok,
            Err(None) => r == Err::<ImageLayout, CodecError<E>>(
                CodecError::IoError(
                    match source.fault {
                        Some(f) => IoFailure::Reader(f),
                        None => IoFailure::UnexpectedEof,
                    },
                ),
            ),
            Err(Some(text)) => r matches Err(CodecError::IoError(IoFailure::InvalidData(s))) && s@
                == text,
        },
        r is Err ==> after is Done,
        source.rest().len() > 0 && source.rest()[0] != 10 ==> (r matches Err(
            CodecError::IoError(IoFailure::InvalidData(s)),
        ) && s@ == "not a PCX file"@),
        source.rest().len() < 128 ==> r is Err,
{
}

} // verus!
