//! Decoding of PCX images.
//!
//! PCX (PiCture eXchange) is an obsolete image format from the 1980s.

use vstd::prelude::*;

use crate::source::ByteSource;
use crate::types::{
    ColorType, ExtendedColorType, CodecError, ImageLayout, IoFailure, ParameterErrorKind,
};

pub mod laws;

verus! {

/// What matters of a file header.
#[derive(Debug, Clone, Copy, PartialEq, Eq)]
pub struct PcxHeader {
    pub width: u16,
    pub height: u16,
    /// Bits of each pixel in each plane.
    pub bit_depth: u8,
    pub number_of_color_planes: u8,
    /// The number of colours in the palette, if there is one.
    pub palette_length: Option<u16>,
}

/// What the `pcx` crate reports.
#[derive(Debug, PartialEq, Eq)]
pub enum PcxProblem {
    /// The bytes ended too early.
    Eof,
    /// The bytes make no sense; the text says why.
    Invalid(String),
}

/// A reader of the `pcx` crate, which yields the rows of an image one after the other.
#[verifier::external_body]
pub struct PcxRows {
    inner: pcx::Reader<std::io::Cursor<Vec<u8>>>,
}

/// The file that a reader reads.
pub uninterp spec fn pcx_file(r: PcxRows) -> Seq<u8>;

/// The number of rows that a reader has read.
pub uninterp spec fn pcx_rows_read(r: PcxRows) -> nat;

/// The samples of a row of a file without a palette, unless the file ends before.
pub uninterp spec fn pcx_rgb_row(file: Seq<u8>, row: nat) -> Option<Seq<u8>>;

/// The palette indices of a row of a file with a palette, unless the file ends before.
pub uninterp spec fn pcx_index_row(file: Seq<u8>, row: nat) -> Option<Seq<u8>>;

/// The number of bytes of a file that follow its first rows.
pub uninterp spec fn pcx_bytes_after(file: Seq<u8>, rows: nat) -> nat;

/// The value of two bytes, the less significant one first.
pub open spec fn le16(s: Seq<u8>, i: int) -> int {
    s[i] + s[i + 1] * 256
}

/// The number of colours of a palette, if there is one. Only images of three planes with 8 bits
/// each have none.
pub open spec fn palette_len(planes: u8, bit_depth: u8) -> Option<u16> {
    let bits = planes * bit_depth;
    if planes == 3 && bit_depth == 8 {
        None
    } else if bits == 1 {
        Some(2)
    } else if bits == 2 {
        Some(4)
    } else if bits == 3 {
        Some(8)
    } else if bits == 4 {
        Some(16)
    } else {
        Some(256)
    }
}

/// Whether an image can have planes of this depth.
pub open spec fn is_format(planes: u8, bit_depth: u8) -> bool {
    ||| planes == 3 && bit_depth == 8
    ||| planes == 1 && (bit_depth == 1 || bit_depth == 2 || bit_depth == 4 || bit_depth == 8)
    ||| 2 <= planes <= 4 && bit_depth == 1
}

/// What the header of a file says. The error is a text, or `None` if the file ends too early.
pub open spec fn header_of(file: Seq<u8>) -> Result<PcxHeader, Option<Seq<char>>> {
    let width = le16(file, 8) - le16(file, 4) + 1;
    let height = le16(file, 10) - le16(file, 6) + 1;
    let bit_depth = file[3];
    let planes = file[65];
    if file.len() < 1 {
        Err(None)
    } else if file[0] != 10 {
        Err(Some("not a PCX file"@))
    } else if file.len() < 2 {
        Err(None)
    } else if file[1] == 1 || file[1] > 5 {
        Err(Some("PCX: unknown version"@))
    } else if file.len() < 3 {
        Err(None)
    } else if file[2] > 1 {
        Err(Some("PCX: unknown encoding"@))
    } else if file.len() < 12 {
        Err(None)
    } else if !(1 <= width <= 0xffff && 1 <= height <= 0xffff) {
        Err(Some("PCX: invalid dimensions"@))
    } else if file.len() < 128 {
        Err(None)
    } else if !is_format(planes, bit_depth) {
        Err(Some("PCX: invalid or unsupported color format"@))
    } else if le16(file, 66) < (width * bit_depth + 7) / 8 {
        Err(Some("PCX: invalid lane length"@))
    } else {
        Ok(
            PcxHeader {
                width: width as u16,
                height: height as u16,
                bit_depth,
                number_of_color_planes: planes,
                palette_length: palette_len(planes, bit_depth),
            },
        )
    }
}

/// Whether a problem is this text or, for `None`, that the bytes ended too early.
pub open spec fn is_problem(problem: PcxProblem, text: Option<Seq<char>>) -> bool {
    match (problem, text) {
        (PcxProblem::Eof, None) => true,
        (PcxProblem::Invalid(s), Some(t)) => s@ == t,
        _ => false,
    }
}

impl PcxRows {
    /// What holds of every reader: its file has a header.
    pub open spec fn wf(self) -> bool {
        header_of(pcx_file(self)) is Ok
    }

    /// The header of the file.
    pub open spec fn header(self) -> PcxHeader {
        header_of(pcx_file(self))->Ok_0
    }
}

/// Calls `pcx::Reader::new`, which reads the header of 128 bytes, and fails where it makes no
/// sense or the bytes end too early.
#[verifier::external_body]
fn open_rows(bytes: Vec<u8>) -> (r: Result<PcxRows, PcxProblem>)
    ensures
        match (header_of(bytes@), r) {
            (Ok(_), Ok(rows)) => pcx_file(rows) == bytes@ && pcx_rows_read(rows) == 0,
            (Err(text), Err(problem)) => is_problem(problem, text),
            _ => false,
        },
{
    match pcx::Reader::new(std::io::Cursor::new(bytes)) {
        Ok(inner) => Ok(PcxRows { inner }),
        Err(e) => match e.kind() {
            std::io::ErrorKind::UnexpectedEof => Err(PcxProblem::Eof),
            _ => Err(PcxProblem::Invalid(e.to_string())),
        },
    }
}

/// Takes the fields of `pcx::Reader::header`, and calls `pcx::Reader::palette_length`. They are
/// what the header of the file says.
#[verifier::external_body]
fn rows_header(rows: &PcxRows) -> (r: PcxHeader)
    requires
        rows.wf(),
    ensures
        r == rows.header(),
{
    PcxHeader {
        width: rows.inner.width(),
        height: rows.inner.height(),
        bit_depth: rows.inner.header.bit_depth,
        number_of_color_planes: rows.inner.header.number_of_color_planes,
        palette_length: rows.inner.palette_length(),
    }
}

/// Calls `pcx::Reader::next_row_rgb`, which reads a row of an image without a palette: three
/// samples for each pixel. It fails where the file ends too early. What it then leaves in the
/// buffer is not stated.
#[verifier::external_body]
fn next_rgb_row(rows: &mut PcxRows, buf: &mut [u8]) -> (r: Result<(), PcxProblem>)
    requires
        old(rows).wf(),
        old(rows).header().palette_length is None,
        pcx_rows_read(*old(rows)) < old(rows).header().height,
        old(buf)@.len() == 3 * old(rows).header().width,
    ensures
        pcx_file(*final(rows)) == pcx_file(*old(rows)),
        final(buf)@.len() == old(buf)@.len(),
        match pcx_rgb_row(pcx_file(*old(rows)), pcx_rows_read(*old(rows))) {
            Some(row) => {
                &&& r == Ok::<(), PcxProblem>(())
                &&& final(buf)@ == row
                &&& pcx_rows_read(*final(rows)) == pcx_rows_read(*old(rows)) + 1
            },
            None => r == Err::<(), PcxProblem>(PcxProblem::Eof),
        },
{
    rows.inner.next_row_rgb(buf).map_err(|e| match e.kind() {
        std::io::ErrorKind::UnexpectedEof => PcxProblem::Eof,
        _ => PcxProblem::Invalid(e.to_string()),
    })
}

/// Calls `pcx::Reader::next_row_paletted`, which reads a row of an image with a palette: an
/// index for each pixel, which is less than the number of colours. It fails where the file ends
/// too early. What it then leaves in the buffer is not stated.
#[verifier::external_body]
fn next_index_row(rows: &mut PcxRows, buf: &mut [u8]) -> (r: Result<(), PcxProblem>)
    requires
        old(rows).wf(),
        old(rows).header().palette_length is Some,
        pcx_rows_read(*old(rows)) < old(rows).header().height,
        old(buf)@.len() == old(rows).header().width,
    ensures
        pcx_file(*final(rows)) == pcx_file(*old(rows)),
        final(buf)@.len() == old(buf)@.len(),
        match pcx_index_row(pcx_file(*old(rows)), pcx_rows_read(*old(rows))) {
            Some(row) => {
                &&& r == Ok::<(), PcxProblem>(())
                &&& final(buf)@ == row
                &&& pcx_rows_read(*final(rows)) == pcx_rows_read(*old(rows)) + 1
                &&& forall|i: int|
                    0 <= i < final(buf)@.len() ==> #[trigger] final(buf)@[i] < old(
                        rows,
                    ).header().palette_length->0
            },
            None => r == Err::<(), PcxProblem>(PcxProblem::Eof),
        },
{
    rows.inner.next_row_paletted(buf).map_err(|e| match e.kind() {
        std::io::ErrorKind::UnexpectedEof => PcxProblem::Eof,
        _ => PcxProblem::Invalid(e.to_string()),
    })
}

/// The byte before a palette of 256 colours.
pub const PALETTE_START: u8 = 12;

/// The palette of a file of which `left` bytes follow its rows. Two colours are black and white,
/// up to 16 are in the header, and 256 are the last bytes of the file.
pub open spec fn palette_of(file: Seq<u8>, left: nat, colors: u16) -> Option<Seq<u8>> {
    if colors == 2 {
        Some(seq![0u8, 0u8, 0u8, 255u8, 255u8, 255u8])
    } else if colors <= 16 {
        Some(file.subrange(16, 16 + 3 * colors))
    } else if left >= 769 && file[file.len() - 769] == PALETTE_START {
        Some(file.skip(file.len() - 768))
    } else {
        None
    }
}

/// Calls `pcx::Reader::read_palette`, which reads a palette of 256 colours from the end of the
/// file, and fails where there is none. Smaller palettes are known from the header.
#[verifier::external_body]
fn finish_with_palette(rows: PcxRows, buf: &mut [u8]) -> (r: Result<(), PcxProblem>)
    requires
        rows.wf(),
        rows.header().palette_length matches Some(colors) && old(buf)@.len() == 3 * colors,
    ensures
        final(buf)@.len() == old(buf)@.len(),
        match palette_of(
            pcx_file(rows),
            pcx_bytes_after(pcx_file(rows), pcx_rows_read(rows)),
            rows.header().palette_length->0,
        ) {
            Some(palette) => r == Ok::<(), PcxProblem>(()) && final(buf)@ == palette,
            None => r matches Err(problem) && is_problem(problem, Some("no 256-color palette"@)),
        },
{
    match rows.inner.read_palette(buf) {
        Ok(_) => Ok(()),
        Err(e) => match e.kind() {
            std::io::ErrorKind::UnexpectedEof => Err(PcxProblem::Eof),
            _ => Err(PcxProblem::Invalid(e.to_string())),
        },
    }
}

/// What a problem means for the caller. Where bytes could not be read, that is because the
/// reader failed with `fault`, or came to its end.
pub open spec fn problem_error<E>(problem: PcxProblem, fault: Option<E>) -> IoFailure<E> {
    match problem {
        PcxProblem::Eof => match fault {
            Some(f) => IoFailure::Reader(f),
            None => IoFailure::UnexpectedEof,
        },
        PcxProblem::Invalid(text) => IoFailure::InvalidData(text),
    }
}

/// What a problem means for the caller.
pub fn convert_pcx_decode_error<E>(problem: PcxProblem, fault: Option<E>) -> (r: CodecError<E>)
    ensures
        r == CodecError::IoError(problem_error(problem, fault)),
{
    CodecError::IoError(
        match problem {
            PcxProblem::Eof => match fault {
                Some(f) => IoFailure::Reader(f),
                None => IoFailure::UnexpectedEof,
            },
            PcxProblem::Invalid(text) => IoFailure::InvalidData(text),
        },
    )
}

/// The pixels of rows of palette indices.
pub open spec fn colored(indices: Seq<u8>, palette: Seq<u8>) -> Seq<u8> {
    Seq::new(3 * indices.len(), |q: int| palette[3 * indices[q / 3] + q % 3])
}

/// Writes the colours of palette indices.
pub fn expand_palette(indices: &[u8], palette: &[u8], buf: &mut [u8])
    requires
        old(buf)@.len() == 3 * indices@.len(),
        forall|i: int|
            0 <= i < indices@.len() ==> 3 * (#[trigger] indices@[i]) + 2 < palette@.len(),
    ensures
        final(buf)@ == colored(indices@, palette@),
{
    let len = buf.len();
    let mut i: usize = 0;
    while i < indices.len()
        invariant
            i <= indices@.len(),
            buf@.len() == 3 * indices@.len() <= usize::MAX,
            forall|j: int|
                0 <= j < indices@.len() ==> 3 * (#[trigger] indices@[j]) + 2 < palette@.len(),
            forall|q: int|
                0 <= q < 3 * i ==> #[trigger] buf@[q] == colored(indices@, palette@)[q],
        decreases indices@.len() - i,
    {
        let pixel = indices[i] as usize;
        let offset = 3 * i;
        buf[offset] = palette[pixel * 3];
        buf[offset + 1] = palette[pixel * 3 + 1];
        buf[offset + 2] = palette[pixel * 3 + 2];
        i += 1;
    }
    assert(buf@ =~= colored(indices@, palette@));
}

/// A decoder for PCX images.
pub enum PCXDecoder<E> {
    /// Nothing has been read.
    Init(ByteSource<E>),
    /// The header has been read. At the end of what the reader delivers, it fails with this
    /// error, if there is one.
    Header(PcxRows, Option<E>),
    /// The image has been read, or reading has failed.
    Done,
}

impl PcxHeader {
    /// The layout of the image.
    pub open spec fn layout(self) -> ImageLayout {
        ImageLayout {
            color: ColorType::Rgb8,
            width: self.width as u32,
            height: self.height as u32,
        }
    }
}

/// The first row that cannot be read, or `height` if there is none.
pub open spec fn rows_available(file: Seq<u8>, paletted: bool, row: nat, height: nat) -> nat
    decreases height - row,
{
    if row >= height {
        height
    } else if paletted && pcx_index_row(file, row) is None {
        row
    } else if !paletted && pcx_rgb_row(file, row) is None {
        row
    } else {
        rows_available(file, paletted, row + 1, height)
    }
}

/// The palette indices of the first `rows` rows.
pub open spec fn index_rows(file: Seq<u8>, rows: nat) -> Seq<u8>
    decreases rows,
{
    if rows == 0 {
        Seq::empty()
    } else {
        index_rows(file, (rows - 1) as nat) + pcx_index_row(file, (rows - 1) as nat)->0
    }
}

/// The samples of the first `rows` rows.
pub open spec fn rgb_rows(file: Seq<u8>, rows: nat) -> Seq<u8>
    decreases rows,
{
    if rows == 0 {
        Seq::empty()
    } else {
        rgb_rows(file, (rows - 1) as nat) + pcx_rgb_row(file, (rows - 1) as nat)->0
    }
}

/// Whether the first `rows` rows of an image without a palette are there, with three samples for
/// each column.
pub open spec fn rgb_rows_fit(file: Seq<u8>, header: PcxHeader, rows: nat) -> bool {
    forall|y: nat|
        y < rows ==> (#[trigger] pcx_rgb_row(file, y) matches Some(row) && row.len() == 3
            * header.width)
}

/// Whether the first `rows` rows of an image with a palette are there, with the index of a colour
/// for each column.
pub open spec fn index_rows_fit(file: Seq<u8>, header: PcxHeader, rows: nat) -> bool {
    forall|y: nat|
        y < rows ==> (#[trigger] pcx_index_row(file, y) matches Some(row) && row.len()
            == header.width && forall|x: int|
            0 <= x < row.len() ==> #[trigger] row[x] < header.palette_length->0)
}

/// What reading an image without a palette leaves in the buffer: its rows, up to the first one
/// that cannot be read. What is left in that one's place is not stated. Everything behind it is
/// as before.
pub open spec fn rgb_read<E>(
    file: Seq<u8>,
    header: PcxHeader,
    fault: Option<E>,
    before: Seq<u8>,
    after: Seq<u8>,
    r: Result<(), CodecError<E>>,
) -> bool {
    let rows = rows_available(file, false, 0, header.height as nat);
    let size = 3 * header.width as int;
    &&& after.len() == before.len()
    &&& rgb_rows_fit(file, header, rows)
    &&& after.take(size * rows) == rgb_rows(file, rows)
    &&& if rows == header.height {
        r == Ok::<(), CodecError<E>>(())
    } else {
        &&& r == Err::<(), CodecError<E>>(CodecError::IoError(problem_error(PcxProblem::Eof, fault)))
        &&& after.skip(size * (rows + 1)) == before.skip(size * (rows + 1))
    }
}

/// What reading an image with a palette gives: the colours of its pixels, or an error, and then
/// the buffer is as before. A palette of 256 colours is at the end of the file, so that an error
/// of the reader comes to light.
pub open spec fn paletted_read<E>(
    file: Seq<u8>,
    header: PcxHeader,
    fault: Option<E>,
    before: Seq<u8>,
    after: Seq<u8>,
    r: Result<(), CodecError<E>>,
) -> bool {
    let height = header.height as nat;
    let colors = header.palette_length->0;
    let rows = rows_available(file, true, 0, height);
    &&& index_rows_fit(file, header, rows)
    &&& if rows < height {
        &&& after == before
        &&& r == Err::<(), CodecError<E>>(CodecError::IoError(problem_error(PcxProblem::Eof, fault)))
    } else if colors == 256 && fault is Some {
        &&& after == before
        &&& r == Err::<(), CodecError<E>>(CodecError::IoError(IoFailure::Reader(fault->0)))
    } else {
        match palette_of(file, pcx_bytes_after(file, height), colors) {
            Some(palette) => {
                &&& r == Ok::<(), CodecError<E>>(())
                &&& after == colored(index_rows(file, height), palette)
            },
            None => {
                &&& after == before
                &&& r matches Err(CodecError::IoError(IoFailure::InvalidData(text))) && text@
                    == "no 256-color palette"@
            },
        }
    }
}

/// What reading an image gives.
pub open spec fn image_read<E>(
    file: Seq<u8>,
    header: PcxHeader,
    fault: Option<E>,
    before: Seq<u8>,
    after: Seq<u8>,
    r: Result<(), CodecError<E>>,
) -> bool {
    if header.palette_length is None {
        rgb_read(file, header, fault, before, after, r)
    } else {
        paletted_read(file, header, fault, before, after, r)
    }
}

/// Whether `r` is the error that reading a header gives.
pub open spec fn header_failed<E>(
    text: Option<Seq<char>>,
    fault: Option<E>,
    e: CodecError<E>,
) -> bool {
    match text {
        None => e == CodecError::IoError(problem_error(PcxProblem::Eof, fault)),
        Some(t) => e matches CodecError::IoError(IoFailure::InvalidData(s)) && s@ == t,
    }
}

impl<E> PCXDecoder<E> {
    /// What holds of every decoder.
    pub open spec fn wf(self) -> bool {
        match self {
            PCXDecoder::Init(source) => source.wf(),
            PCXDecoder::Header(rows, _) => rows.wf() && pcx_rows_read(rows) == 0,
            PCXDecoder::Done => true,
        }
    }

    /// Whether this decoder has read the header of a file.
    pub open spec fn opened(self, file: Seq<u8>, fault: Option<E>) -> bool {
        self matches PCXDecoder::Header(rows, f) && pcx_file(rows) == file && f == fault
    }

    /// What `peek_layout` makes of the decoder `before`.
    pub open spec fn peeked(
        before: PCXDecoder<E>,
        after: PCXDecoder<E>,
        r: Result<ImageLayout, CodecError<E>>,
    ) -> bool {
        match before {
            PCXDecoder::Init(source) => match header_of(source.rest()) {
                Ok(header) => {
                    &&& r == Ok::<ImageLayout, CodecError<E>>(header.layout())
                    &&& after.opened(source.rest(), source.fault)
                },
                Err(text) => {
                    &&& r matches Err(e) && header_failed(text, source.fault, e)
                    &&& after == PCXDecoder::<E>::Done
                },
            },
            PCXDecoder::Header(rows, _) => {
                &&& r == Ok::<ImageLayout, CodecError<E>>(rows.header().layout())
                &&& after == before
            },
            PCXDecoder::Done => {
                &&& r == Err::<ImageLayout, CodecError<E>>(
                    CodecError::Parameter(ParameterErrorKind::NoMoreData),
                )
                &&& after == before
            },
        }
    }

    /// What `read_image` makes of the buffer, for the decoder `before`.
    pub open spec fn taken(
        before: PCXDecoder<E>,
        buf0: Seq<u8>,
        buf1: Seq<u8>,
        r: Result<(), CodecError<E>>,
    ) -> bool {
        match before {
            PCXDecoder::Init(source) => match header_of(source.rest()) {
                Ok(header) => image_read(source.rest(), header, source.fault, buf0, buf1, r),
                Err(text) => {
                    &&& r matches Err(e) && header_failed(text, source.fault, e)
                    &&& buf1 == buf0
                },
            },
            PCXDecoder::Header(rows, fault) => image_read(
                pcx_file(rows),
                rows.header(),
                fault,
                buf0,
                buf1,
                r,
            ),
            PCXDecoder::Done => {
                &&& r == Err::<(), CodecError<E>>(
                    CodecError::Parameter(ParameterErrorKind::NoMoreData),
                )
                &&& buf1 == buf0
            },
        }
    }

    /// A decoder that has not read anything.
    pub fn new(r: ByteSource<E>) -> (d: PCXDecoder<E>)
        requires
            r.wf(),
        ensures
            d.wf(),
            d == PCXDecoder::Init(r),
    {
        PCXDecoder::Init(r)
    }

    /// Reads the header, unless it has been read.
    fn open(&mut self) -> (r: Result<PcxHeader, CodecError<E>>)
        requires
            old(self).wf(),
        ensures
            final(self).wf(),
            match *old(self) {
                PCXDecoder::Init(source) => match header_of(source.rest()) {
                    Ok(header) => {
                        &&& r == Ok::<PcxHeader, CodecError<E>>(header)
                        &&& final(self).opened(source.rest(), source.fault)
                    },
                    Err(text) => {
                        &&& r matches Err(e) && header_failed(text, source.fault, e)
                        &&& *final(self) == PCXDecoder::<E>::Done
                    },
                },
                PCXDecoder::Header(rows, _) => {
                    &&& r == Ok::<PcxHeader, CodecError<E>>(rows.header())
                    &&& *final(self) == *old(self)
                },
                PCXDecoder::Done => {
                    &&& r == Err::<PcxHeader, CodecError<E>>(
                        CodecError::Parameter(ParameterErrorKind::NoMoreData),
                    )
                    &&& *final(self) == *old(self)
                },
            },
    {
        let mut state = PCXDecoder::Done;
        std::mem::swap(self, &mut state);
        match state {
            PCXDecoder::Init(source) => {
                let bytes = vstd::slice::slice_to_vec(
                    vstd::slice::slice_subrange(
                        source.data.as_slice(),
                        source.pos,
                        source.data.len(),
                    ),
                );
                assert(bytes@ =~= source.rest());
                match open_rows(bytes) {
                    Ok(rows) => {
                        let header = rows_header(&rows);
                        *self = PCXDecoder::Header(rows, source.fault);
                        Ok(header)
                    },
                    Err(problem) => Err(convert_pcx_decode_error(problem, source.fault)),
                }
            },
            PCXDecoder::Header(rows, fault) => {
                let header = rows_header(&rows);
                *self = PCXDecoder::Header(rows, fault);
                Ok(header)
            },
            PCXDecoder::Done => Err(CodecError::Parameter(ParameterErrorKind::NoMoreData)),
        }
    }

    /// Reads the header, unless it has been read, and returns the layout of the image.
    pub fn peek_layout(&mut self) -> (r: Result<ImageLayout, CodecError<E>>)
        requires
            old(self).wf(),
        ensures
            final(self).wf(),
            Self::peeked(*old(self), *final(self), r),
    {
        let header = self.open()?;
        Ok(
            ImageLayout {
                color: ColorType::Rgb8,
                width: header.width as u32,
                height: header.height as u32,
            },
        )
    }

    /// The colour type of the file. The palettes of files have no colour type of their own; what
    /// is told of them is the depth of a plane.
    pub fn original_color_type(&mut self) -> (r: Result<ExtendedColorType, CodecError<E>>)
        requires
            old(self).wf(),
        ensures
            final(self).wf(),
            match *old(self) {
                PCXDecoder::Init(source) => match header_of(source.rest()) {
                    Ok(header) => {
                        &&& r == Ok::<ExtendedColorType, CodecError<E>>(header.color_type())
                        &&& final(self).opened(source.rest(), source.fault)
                    },
                    Err(text) => {
                        &&& r matches Err(e) && header_failed(text, source.fault, e)
                        &&& *final(self) == PCXDecoder::<E>::Done
                    },
                },
                PCXDecoder::Header(rows, _) => {
                    &&& r == Ok::<ExtendedColorType, CodecError<E>>(rows.header().color_type())
                    &&& *final(self) == *old(self)
                },
                PCXDecoder::Done => {
                    &&& r == Err::<ExtendedColorType, CodecError<E>>(
                        CodecError::Parameter(ParameterErrorKind::NoMoreData),
                    )
                    &&& *final(self) == *old(self)
                },
            },
    {
        let header = self.open()?;
        match header.palette_length {
            Some(_) => Ok(ExtendedColorType::Unknown(header.bit_depth)),
            None => Ok(ExtendedColorType::Rgb8),
        }
    }

    /// Reads the image into `buf`, which has to have the length that the layout states. Each
    /// pixel takes three bytes.
    pub fn read_image(&mut self, buf: &mut [u8]) -> (r: Result<(), CodecError<E>>)
        requires
            old(self).wf(),
            match *old(self) {
                PCXDecoder::Init(source) => header_of(source.rest()) matches Ok(header) ==> old(
                    buf,
                )@.len() == header.layout().byte_count(),
                PCXDecoder::Header(rows, _) => old(buf)@.len()
                    == rows.header().layout().byte_count(),
                PCXDecoder::Done => true,
            },
        ensures
            *final(self) == PCXDecoder::<E>::Done,
            Self::taken(*old(self), old(buf)@, final(buf)@, r),
    {
        let header = self.open()?;
        let mut state = PCXDecoder::Done;
        std::mem::swap(self, &mut state);
        match state {
            PCXDecoder::Header(rows, fault) => match header.palette_length {
                None => read_rgb(rows, header, fault, buf),
                Some(colors) => read_paletted(rows, header, colors, fault, buf),
            },
            _ => Err(CodecError::Parameter(ParameterErrorKind::NoMoreData)),
        }
    }
}

impl PcxHeader {
    /// The colour type of the file.
    pub open spec fn color_type(self) -> ExtendedColorType {
        if self.palette_length is Some {
            ExtendedColorType::Unknown(self.bit_depth)
        } else {
            ExtendedColorType::Rgb8
        }
    }
}

/// Reads the rows of an image without a palette.
fn read_rgb<E>(opened: PcxRows, header: PcxHeader, fault: Option<E>, buf: &mut [u8]) -> (r: Result<
    (),
    CodecError<E>,
>)
    requires
        opened.wf(),
        header == opened.header(),
        pcx_rows_read(opened) == 0,
        header.palette_length is None,
        old(buf)@.len() == header.layout().byte_count(),
    ensures
        rgb_read(pcx_file(opened), header, fault, old(buf)@, final(buf)@, r),
{
    let ghost file = pcx_file(opened);
    let ghost before = buf@;
    let ghost h = header.height as nat;
    let len = buf.len();
    let size = 3 * header.width as usize;
    let mut rows = opened;
    let mut i: u16 = 0;
    proof {
        lemma_len(header, len as int);
        assert(size * 0 == 0) by (nonlinear_arith);
        assert(buf@.take(0) =~= rgb_rows(file, 0));
        assert(buf@.skip(0) =~= before.skip(0));
    }
    while i < header.height
        invariant
            i <= header.height,
            h == header.height,
            size == 3 * header.width,
            rows.wf(),
            pcx_file(opened) == file,
            pcx_file(rows) == file,
            header == rows.header(),
            pcx_rows_read(rows) == i,
            header.palette_length is None,
            before == old(buf)@,
            buf@.len() == before.len() == size * h,
            buf@.len() == len,
            0 <= size * i <= len,
            buf@.take(size * i) == rgb_rows(file, i as nat),
            buf@.skip(size * i) == before.skip(size * i),
            rgb_rows_fit(file, header, i as nat),
            rows_available(file, false, 0, h) == rows_available(file, false, i as nat, h),
        decreases header.height - i,
    {
        let ghost now = buf@;
        proof {
            assert(size * i + size == size * (i + 1)) by (nonlinear_arith);
            assert(size * (i + 1) <= size * h) by (nonlinear_arith)
                requires
                    i + 1 <= h,
                    size >= 0,
            ;
        }
        let start = size * i as usize;
        let ghost mut row = Seq::<u8>::empty();
        let res;
        {
            let (_, tail) = buf.split_at_mut(start);
            let (buf_row, _) = tail.split_at_mut(size);
            res = next_rgb_row(&mut rows, buf_row);
            proof {
                row = buf_row@;
            }
        }
        proof {
            assert(buf@ =~= now.take(start as int) + row + now.skip(start + size));
            assert(buf@.skip(size * (i + 1)) =~= before.skip(size * (i + 1))) by {
                assert forall|q: int| size * (i + 1) <= q < len implies #[trigger] now[q]
                    == before[q] by {
                    assert(now.skip(size * i)[q - size * i] == before.skip(size * i)[q - size * i]);
                }
            }
            assert(buf@.take(size * i) =~= now.take(size * i));
        }
        if let Err(problem) = res {
            return Err(convert_pcx_decode_error(problem, fault));
        }
        assert(buf@.take(size * (i + 1)) =~= rgb_rows(file, i as nat) + row);
        i += 1;
    }
    Ok(())
}

/// The length of an image is that of its rows.
proof fn lemma_len(header: PcxHeader, len: int)
    requires
        len == header.layout().byte_count(),
    ensures
        len == (3 * header.width) * header.height,
        len == 3 * (header.width * header.height),
        0 <= header.width * header.height <= 0xffff * 0xffff,
{
    let w = header.width as int;
    let h = header.height as int;
    assert(header.layout().color.pixel_bytes() == 3);
    assert(w * h * 3 == (3 * w) * h && w * h * 3 == 3 * (w * h)) by (nonlinear_arith);
    assert(0 <= w * h <= 0xffff * 0xffff) by (nonlinear_arith)
        requires
            0 <= w <= 0xffff,
            0 <= h <= 0xffff,
    ;
}

/// Reads the rows of an image with a palette, and then the palette, because the palette cannot
/// be had first.
fn read_paletted<E>(
    opened: PcxRows,
    header: PcxHeader,
    colors: u16,
    fault: Option<E>,
    buf: &mut [u8],
) -> (r: Result<(), CodecError<E>>)
    requires
        opened.wf(),
        header == opened.header(),
        pcx_rows_read(opened) == 0,
        header.palette_length == Some(colors),
        old(buf)@.len() == header.layout().byte_count(),
    ensures
        paletted_read(pcx_file(opened), header, fault, old(buf)@, final(buf)@, r),
{
    let ghost file = pcx_file(opened);
    let ghost h = header.height as nat;
    let len = buf.len();
    let width = header.width as usize;
    proof {
        lemma_len(header, len as int);
        assert(width * 0 == 0) by (nonlinear_arith);
    }
    let mut indices: Vec<u8> = Vec::new();
    let mut rows = opened;
    let mut i: u16 = 0;
    let size = width * header.height as usize;
    indices.resize(size, 0);
    assert(indices@.take(0) =~= index_rows(file, 0));
    while i < header.height
        invariant
            i <= header.height,
            h == header.height,
            width == header.width,
            rows.wf(),
            pcx_file(opened) == file,
            pcx_file(rows) == file,
            header == rows.header(),
            pcx_rows_read(rows) == i,
            header.palette_length == Some(colors),
            indices@.len() == size == width * h <= usize::MAX,
            0 <= width * i <= size,
            indices@.take(width * i) == index_rows(file, i as nat),
            forall|q: int| 0 <= q < width * i ==> #[trigger] indices@[q] < colors,
            index_rows_fit(file, header, i as nat),
            rows_available(file, true, 0, h) == rows_available(file, true, i as nat, h),
            buf@ == old(buf)@,
        decreases header.height - i,
    {
        let ghost now = indices@;
        proof {
            assert(width * i + width == width * (i + 1)) by (nonlinear_arith);
            assert(width * (i + 1) <= width * h) by (nonlinear_arith)
                requires
                    i + 1 <= h,
                    width >= 0,
            ;
        }
        let start = width * i as usize;
        let ghost mut row = Seq::<u8>::empty();
        let res;
        {
            let (_, tail) = indices.as_mut_slice().split_at_mut(start);
            let (index_row, _) = tail.split_at_mut(width);
            res = next_index_row(&mut rows, index_row);
            proof {
                row = index_row@;
            }
        }
        assert(indices@ =~= now.take(start as int) + row + now.skip(start + width));
        if let Err(problem) = res {
            return Err(convert_pcx_decode_error(problem, fault));
        }
        proof {
            assert(indices@.take(width * (i + 1)) =~= index_rows(file, i as nat) + row);
        }
        i += 1;
    }
    assert(indices@.take(width * i) =~= indices@);
    if colors == 256 {
        if let Some(f) = fault {
            return Err(CodecError::IoError(IoFailure::Reader(f)));
        }
    }
    let mut palette: Vec<u8> = Vec::new();
    palette.resize(3 * colors as usize, 0);
    match finish_with_palette(rows, palette.as_mut_slice()) {
        Ok(()) => {
            expand_palette(indices.as_slice(), palette.as_slice(), buf);
            Ok(())
        },
        Err(problem) => Err(convert_pcx_decode_error(problem, None)),
    }
}

/// Where the rows of an image without a palette are.
proof fn lemma_rgb_rows(file: Seq<u8>, header: PcxHeader, rows: nat)
    requires
        rgb_rows_fit(file, header, rows),
    ensures
        rgb_rows(file, rows).len() == (3 * header.width) * rows,
        forall|y: nat, q: int|
            y < rows && 0 <= q < 3 * header.width ==> #[trigger] rgb_rows(file, rows)[(3
                * header.width) * y + q] == (#[trigger] pcx_rgb_row(file, y))->0[q],
    decreases rows,
{
    let size = 3 * header.width as int;
    if rows > 0 {
        let last = (rows - 1) as nat;
        lemma_rgb_rows(file, header, last);
        assert(pcx_rgb_row(file, last)->0.len() == size);
        assert(size * last + size == size * rows) by (nonlinear_arith)
            requires
                last == rows - 1,
        ;
        assert forall|y: nat, q: int| y < rows && 0 <= q < size implies #[trigger] rgb_rows(
            file,
            rows,
        )[size * y + q] == (#[trigger] pcx_rgb_row(file, y))->0[q] by {
            lemma_place(size, y as int, q, last as int);
        }
    } else {
        assert(size * rows == 0) by (nonlinear_arith)
            requires
                rows == 0,
        ;
    }
}

/// Where the rows of an image with a palette are.
proof fn lemma_index_rows(file: Seq<u8>, header: PcxHeader, rows: nat)
    requires
        index_rows_fit(file, header, rows),
    ensures
        index_rows(file, rows).len() == header.width * rows,
        forall|y: nat, x: int|
            y < rows && 0 <= x < header.width ==> #[trigger] index_rows(file, rows)[header.width * y
                + x] == (#[trigger] pcx_index_row(file, y))->0[x],
    decreases rows,
{
    let size = header.width as int;
    if rows > 0 {
        let last = (rows - 1) as nat;
        lemma_index_rows(file, header, last);
        assert(pcx_index_row(file, last)->0.len() == size);
        assert(size * last + size == size * rows) by (nonlinear_arith)
            requires
                last == rows - 1,
        ;
        assert forall|y: nat, x: int| y < rows && 0 <= x < size implies #[trigger] index_rows(
            file,
            rows,
        )[size * y + x] == (#[trigger] pcx_index_row(file, y))->0[x] by {
            lemma_place(size, y as int, x, last as int);
        }
    } else {
        assert(size * rows == 0) by (nonlinear_arith)
            requires
                rows == 0,
        ;
    }
}

/// Where a row begins and ends.
proof fn lemma_place(size: int, y: int, q: int, rows: int)
    requires
        0 <= q < size,
        0 <= y,
    ensures
        0 <= size * y,
        y < rows ==> size * y + q < size * rows,
{
    assert(0 <= size * y) by (nonlinear_arith)
        requires
            0 <= size,
            0 <= y,
    ;
    if y < rows {
        assert(size * y + q < size * rows) by (nonlinear_arith)
            requires
                0 <= q < size,
                y + 1 <= rows,
        ;
    }
}

/// Where an image has been read, each of its pixels stands in its place: row after row, and column
/// after column. It is the pixel of its row in the file, or the colour that is stated there.
pub proof fn law_pixels_in_place<E>(
    file: Seq<u8>,
    header: PcxHeader,
    fault: Option<E>,
    before: Seq<u8>,
    after: Seq<u8>,
    x: int,
    y: nat,
    c: int,
)
    requires
        before.len() == header.layout().byte_count(),
        image_read(file, header, fault, before, after, Ok(())),
        0 <= x < header.width,
        y < header.height,
        0 <= c < 3,
    ensures
        after[3 * (header.width * y + x) + c] == (match header.palette_length {
            None => pcx_rgb_row(file, y)->0[3 * x + c],
            Some(colors) => palette_of(
                file,
                pcx_bytes_after(file, header.height as nat),
                colors,
            )->0[3 * pcx_index_row(file, y)->0[x] + c],
        }),
{
    let width = header.width as int;
    let height = header.height as nat;
    match header.palette_length {
        None => {
            lemma_len(header, before.len() as int);
            lemma_rgb_rows(file, header, height);
            lemma_place(3 * width, y as int, 3 * x + c, height as int);
            assert((3 * width) * y + (3 * x + c) == 3 * (width * y + x) + c) by (nonlinear_arith);
            assert(pcx_rgb_row(file, y) is Some);
            let q = (3 * width) * y + (3 * x + c);
            assert(rgb_rows(file, height)[(3 * width) * y + (3 * x + c)] == pcx_rgb_row(
                file,
                y,
            )->0[3 * x + c]);
            assert(after.take((3 * width) * height)[q] == after[q]);
        },
        Some(_) => {
            lemma_index_rows(file, header, height);
            lemma_place(width, y as int, x, height as int);
            let p = width * y + x;
            assert(pcx_index_row(file, y) is Some);
            assert(index_rows(file, height)[width * y + x] == pcx_index_row(file, y)->0[x]);
            assert((3 * p + c) / 3 == p && (3 * p + c) % 3 == c);
        },
    }
}

/// Every row before the first one that cannot be read can be read.
proof fn lemma_rows_available(file: Seq<u8>, paletted: bool, row: nat, height: nat)
    ensures
        row <= height ==> row <= rows_available(file, paletted, row, height) <= height,
        forall|y: nat|
            row <= y < rows_available(file, paletted, row, height) ==> (if paletted {
                (#[trigger] pcx_index_row(file, y)) is Some
            } else {
                (#[trigger] pcx_rgb_row(file, y)) is Some
            }),
    decreases height - row,
{
    if row < height {
        lemma_rows_available(file, paletted, row + 1, height);
    }
}

} // verus!
