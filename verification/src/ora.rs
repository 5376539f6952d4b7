//! Decoding of OpenRaster images (`.ora`).
//!
//! OpenRaster is a format for images with layers. A file is a ZIP archive. Only the merged image
//! that it holds is decoded. The layers are not exposed, nor is the merged image rendered.

use vstd::prelude::*;

use crate::decimal;
use crate::decimal::ascii_bytes;
use crate::source::ByteSource;
use crate::types;
use crate::types::{
    ColorType, DecoderAttributes, DecodingError, ExtendedColorType, CodecError, ImageLayout,
    IoFailure, Limits, ParameterErrorKind, UnsupportedFeature,
};
use archive::{entry_index, load_start, open_archive, EntryFailure, SeekableArchiveFile};
use png::{PngFault, PngProblem};

pub mod archive;
pub mod laws;
pub mod png;

verus! {

/// What is wrong with a file.
#[derive(Debug, PartialEq, Eq)]
pub enum OraDecodeError {
    /// The file is not a ZIP archive; the text says why.
    Archive(String),
    /// The archive has no entry that states its type.
    MissingMimetype,
    /// The entry that states the type cannot be opened; the text says why.
    Entry(String),
    /// The archive is not an OpenRaster file.
    WrongMimetype,
    /// The archive has no merged image.
    MissingMergedImage,
    /// The merged image cannot be decoded; the text says why.
    Png(String),
}

impl OraDecodeError {
    /// What the error says.
    pub open spec fn text(self) -> Seq<char> {
        match self {
            OraDecodeError::Archive(text) => text@,
            OraDecodeError::MissingMimetype =>
                "OpenRaster images should contain a mimetype subfile"@,
            OraDecodeError::Entry(text) => text@,
            OraDecodeError::WrongMimetype =>
                "Image did not have correct mimetype subentry to be identified as OpenRaster"@,
            OraDecodeError::MissingMergedImage =>
                "OpenRaster image missing mergedimage.png entry"@,
            OraDecodeError::Png(text) => text@,
        }
    }

    /// What the error says.
    pub fn message(&self) -> (r: String)
        ensures
            r@ == self.text(),
    {
        match self {
            OraDecodeError::Archive(text) => text.clone(),
            OraDecodeError::MissingMimetype =>
                "OpenRaster images should contain a mimetype subfile".to_owned(),
            OraDecodeError::Entry(text) => text.clone(),
            OraDecodeError::WrongMimetype =>
                "Image did not have correct mimetype subentry to be identified as OpenRaster".to_owned(),
            OraDecodeError::MissingMergedImage =>
                "OpenRaster image missing mergedimage.png entry".to_owned(),
            OraDecodeError::Png(text) => text.clone(),
        }
    }
}

/// Why the merged image cannot be got at.
pub enum OraFailure {
    /// The file is not a ZIP archive.
    Archive(Seq<char>),
    /// There is no entry that states the type.
    MissingMimetype,
    /// The entry that states the type cannot be opened.
    Entry(Seq<char>),
    /// The entry that states the type cannot be read, because it ends too early, or because of an
    /// error.
    Unreadable(Option<archive::EntryFault>),
    /// The entry states another type.
    WrongMimetype,
    /// There is no merged image.
    MissingMergedImage,
    /// The merged image cannot be opened.
    Unopened(Seq<char>),
}

/// What the failure of an entry is reported as.
pub open spec fn is_entry_failure<E>(e: IoFailure<E>, fault: archive::EntryFault) -> bool {
    match fault {
        archive::EntryFault::Io(kind, text) => e matches IoFailure::Failed(k, s) && k == kind && s@
            == text,
        archive::EntryFault::TooLong => e matches IoFailure::Other(s) && s@
            == "the entry is too long"@,
    }
}

/// What the failure of an entry is reported as.
fn entry_failure<E>(failure: &EntryFailure) -> (r: IoFailure<E>)
    ensures
        is_entry_failure(r, failure.fault()),
{
    match failure {
        EntryFailure::Io(kind, text) => IoFailure::Failed(*kind, text.clone()),
        EntryFailure::TooLong => IoFailure::Other("the entry is too long".to_owned()),
    }
}

/// What a failure is reported as.
pub open spec fn is_failure<E>(e: CodecError<E>, failure: OraFailure) -> bool {
    match failure {
        OraFailure::Archive(text) => e matches CodecError::Decoding(
            DecodingError::OpenRaster(OraDecodeError::Archive(s)),
        ) && s@ == text,
        OraFailure::MissingMimetype => e == CodecError::<E>::Decoding(
            DecodingError::OpenRaster(OraDecodeError::MissingMimetype),
        ),
        OraFailure::Entry(text) => e matches CodecError::Decoding(
            DecodingError::OpenRaster(OraDecodeError::Entry(s)),
        ) && s@ == text,
        OraFailure::Unreadable(None) => e == CodecError::<E>::IoError(IoFailure::UnexpectedEof),
        OraFailure::Unreadable(Some(fault)) => e matches CodecError::IoError(f)
            && is_entry_failure(f, fault),
        OraFailure::WrongMimetype => e == CodecError::<E>::Decoding(
            DecodingError::OpenRaster(OraDecodeError::WrongMimetype),
        ),
        OraFailure::MissingMergedImage => e == CodecError::<E>::Decoding(
            DecodingError::OpenRaster(OraDecodeError::MissingMergedImage),
        ),
        OraFailure::Unopened(text) => e matches CodecError::IoError(IoFailure::Other(s)) && s@
            == text,
    }
}

/// What an entry says that states the type of an archive: whether it is an OpenRaster file.
pub open spec fn mimetype_check(contents: (u64, Seq<u8>, Option<archive::EntryFault>)) -> Result<
    (),
    OraFailure,
> {
    let (size, bytes, failure) = contents;
    if bytes.len() < 16 {
        Err(OraFailure::Unreadable(failure))
    } else if bytes.take(16) != decimal::ascii("image/openraster"@) || size != 16 {
        Err(OraFailure::WrongMimetype)
    } else {
        Ok(())
    }
}

/// The index of the merged image in an OpenRaster file, or why it cannot be got at.
pub open spec fn merged_image(file: Seq<u8>) -> Result<usize, OraFailure> {
    match archive::zip_error(file, usize::BITS) {
        Some(text) => Err(OraFailure::Archive(text)),
        None => match archive::zip_index(file, "mimetype"@, usize::BITS) {
            None => Err(OraFailure::MissingMimetype),
            Some(i) => match archive::start_contents(file, i, 16) {
                Err((display, _)) => Err(OraFailure::Entry(display)),
                Ok(contents) => match mimetype_check(contents) {
                    Err(failure) => Err(failure),
                    Ok(()) => match archive::zip_index(
                        file,
                        "mergedimage.png"@,
                        usize::BITS,
                    ) {
                        None => Err(OraFailure::MissingMergedImage),
                        Some(j) => match archive::entry_contents(file, j) {
                            Err((_, debug)) => Err(
                                OraFailure::Unopened("failed to open: "@ + debug),
                            ),
                            Ok(_) => Ok(j),
                        },
                    },
                },
            },
        },
    }
}

/// Checks that an entry states the type of an OpenRaster file.
pub fn check_mimetype<E>(entry: &archive::ZipEntry) -> (r: Result<(), CodecError<E>>)
    ensures
        match mimetype_check(entry.contents()) {
            Ok(()) => r == Ok::<(), CodecError<E>>(()),
            Err(failure) => r matches Err(e) && is_failure(e, failure),
        },
{
    proof {
        reveal_strlit("image/openraster");
    }
    let expected = ascii_bytes("image/openraster");
    if entry.bytes.len() < expected.len() {
        return Err(
            CodecError::IoError(
                match &entry.failure {
                    Some(failure) => entry_failure(failure),
                    None => IoFailure::UnexpectedEof,
                },
            ),
        );
    }
    let ghost start = entry.bytes@.take(16);
    let mut same = entry.size == 16;
    let mut i: usize = 0;
    while i < expected.len()
        invariant
            i <= expected@.len() == 16,
            expected@ == decimal::ascii("image/openraster"@),
            entry.bytes@.len() >= 16,
            start == entry.bytes@.take(16),
            same == (entry.size == 16 && forall|j: int|
                0 <= j < i ==> #[trigger] start[j] == expected@[j]),
        decreases expected@.len() - i,
    {
        assert(start[i as int] == entry.bytes@[i as int]);
        if entry.bytes[i] != expected[i] {
            same = false;
        }
        i += 1;
    }
    proof {
        if forall|j: int| 0 <= j < 16 ==> #[trigger] start[j] == expected@[j] {
            assert(start =~= expected@);
        }
    }
    if !same {
        return Err(CodecError::Decoding(DecodingError::OpenRaster(OraDecodeError::WrongMimetype)));
    }
    Ok(())
}

/// Opens the merged image of an OpenRaster file.
fn open_merged_image<E>(bytes: Vec<u8>) -> (r: Result<SeekableArchiveFile, CodecError<E>>)
    ensures
        match merged_image(bytes@) {
            Ok(index) => {
                &&& r matches Ok(f) && f.wf() && archive::zip_file(f.archive) == bytes@
                    && f.file_index == index && f.position == 0 && archive::fault_of(f.core.fault)
                    == f.contents().2
            },
            Err(failure) => r matches Err(e) && is_failure(e, failure),
        },
{
    let mut zip = match open_archive(bytes) {
        Ok(zip) => zip,
        Err(text) => {
            return Err(
                CodecError::Decoding(DecodingError::OpenRaster(OraDecodeError::Archive(text))),
            );
        },
    };
    // Verify that this is an OpenRaster file, and not some other archive
    let mimetype_index = match entry_index(&zip, "mimetype") {
        Some(index) => index,
        None => {
            return Err(
                CodecError::Decoding(DecodingError::OpenRaster(OraDecodeError::MissingMimetype)),
            );
        },
    };
    let mimetype = match load_start(&mut zip, mimetype_index, 16) {
        Ok(entry) => entry,
        Err(problem) => {
            return Err(
                CodecError::Decoding(
                    DecodingError::OpenRaster(OraDecodeError::Entry(problem.display)),
                ),
            );
        },
    };
    check_mimetype(&mimetype)?;
    let merged_index = match entry_index(&zip, "mergedimage.png") {
        Some(index) => index,
        None => {
            return Err(
                CodecError::Decoding(
                    DecodingError::OpenRaster(OraDecodeError::MissingMergedImage),
                ),
            );
        },
    };
    match SeekableArchiveFile::new(zip, merged_index) {
        Ok(file) => Ok(file),
        Err(text) => Err(CodecError::IoError(IoFailure::Other(text))),
    }
}

/// What the PNG decoder's report means for the caller. Where the image ends too early, that may
/// be because of an error that follows it in the archive.
pub open spec fn is_png_error<E>(
    e: CodecError<E>,
    fault: PngFault,
    failure: Option<archive::EntryFault>,
) -> bool {
    match fault {
        PngFault::Decoding(text) => e matches CodecError::Decoding(
            DecodingError::OpenRaster(OraDecodeError::Png(s)),
        ) && s@ == text,
        PngFault::Parameter(text) => e matches CodecError::Parameter(
            ParameterErrorKind::Generic(s),
        ) && s@ == text,
        PngFault::Limits(kind) => e == CodecError::<E>::Limits(kind),
        PngFault::Unsupported(text) => e matches CodecError::Unsupported(
            UnsupportedFeature::OpenRaster(s),
        ) && s@ == text,
        PngFault::Eof => match failure {
            Some(fault) => e matches CodecError::IoError(f) && is_entry_failure(f, fault),
            None => e == CodecError::<E>::IoError(IoFailure::UnexpectedEof),
        },
        PngFault::Io(kind, text) => e matches CodecError::IoError(IoFailure::Failed(k, s)) && k
            == kind && s@ == text,
    }
}

/// Adjusts what the PNG decoder reports, so that it speaks of OpenRaster.
pub fn set_ora_image_type<E>(problem: PngProblem, failure: &Option<EntryFailure>) -> (r: CodecError<
    E,
>)
    ensures
        is_png_error(r, problem.fault(), archive::fault_of(*failure)),
{
    match problem {
        PngProblem::Decoding(text) => CodecError::Decoding(
            DecodingError::OpenRaster(OraDecodeError::Png(text)),
        ),
        PngProblem::Parameter(text) => CodecError::Parameter(ParameterErrorKind::Generic(text)),
        PngProblem::Limits(kind) => CodecError::Limits(kind),
        PngProblem::Unsupported(text) => CodecError::Unsupported(
            UnsupportedFeature::OpenRaster(text),
        ),
        PngProblem::Eof => CodecError::IoError(
            match failure {
                Some(failure) => entry_failure(failure),
                None => IoFailure::UnexpectedEof,
            },
        ),
        PngProblem::Io(kind, text) => CodecError::IoError(IoFailure::Failed(kind, text)),
    }
}

/// The colour type of a file whose decoded image has this colour type.
pub open spec fn extended(color: ColorType) -> ExtendedColorType {
    match color {
        ColorType::L8 => ExtendedColorType::L8,
        ColorType::La8 => ExtendedColorType::La8,
        ColorType::Rgb8 => ExtendedColorType::Rgb8,
        ColorType::Rgba8 => ExtendedColorType::Rgba8,
        ColorType::L16 => ExtendedColorType::L16,
        ColorType::La16 => ExtendedColorType::La16,
        ColorType::Rgb16 => ExtendedColorType::Rgb16,
        ColorType::Rgba16 => ExtendedColorType::Rgba16,
    }
}

/// The colour type of a file whose decoded image has this colour type.
fn extended_color(color: ColorType) -> (r: ExtendedColorType)
    ensures
        r == extended(color),
{
    match color {
        ColorType::L8 => ExtendedColorType::L8,
        ColorType::La8 => ExtendedColorType::La8,
        ColorType::Rgb8 => ExtendedColorType::Rgb8,
        ColorType::Rgba8 => ExtendedColorType::Rgba8,
        ColorType::L16 => ExtendedColorType::L16,
        ColorType::La16 => ExtendedColorType::La16,
        ColorType::Rgb16 => ExtendedColorType::Rgb16,
        ColorType::Rgba16 => ExtendedColorType::Rgba16,
    }
}

/// How far a decoder has come.
pub enum OraState<E> {
    /// Nothing has been read.
    Init(ByteSource<E>),
    /// The merged image has been opened, to be decoded within these limits. The flag says whether
    /// its pixels have been decoded, or at least tried to.
    Main(SeekableArchiveFile, Limits, bool),
    /// The merged image could not be opened.
    Failed,
}

/// A decoder for OpenRaster images.
pub struct OpenRasterDecoder<E> {
    pub state: OraState<E>,
    /// Limits for decoding the merged image, once it is opened.
    pub limits: Option<Limits>,
}

/// No limits at all.
pub open spec fn no_limits() -> Limits {
    Limits { max_image_width: None, max_image_height: None, max_alloc: None }
}

/// Whether `r` is what the header of an opened image says.
pub open spec fn layout_read<E>(
    file: SeekableArchiveFile,
    limits: Limits,
    r: Result<ImageLayout, CodecError<E>>,
) -> bool {
    match png::png_header(file.contents().1, limits, usize::BITS) {
        Ok(header) => r == Ok::<ImageLayout, CodecError<E>>(header.layout()),
        Err(fault) => r matches Err(e) && is_png_error(e, fault, file.contents().2),
    }
}

/// Whether `r` is what was found in an opened image, or the error that was met there.
pub open spec fn metadata_read<E>(
    found: Result<Option<Seq<u8>>, PngFault>,
    failure: Option<archive::EntryFault>,
    r: Result<Option<Vec<u8>>, CodecError<E>>,
) -> bool {
    match (found, r) {
        (Ok(Some(bytes)), Ok(Some(v))) => v@ == bytes,
        (Ok(None), Ok(None)) => true,
        (Err(fault), Err(e)) => is_png_error(e, fault, failure),
        _ => false,
    }
}

/// Whether `r` is the error for calling a function before `peek_layout`.
pub open spec fn too_early<T, E>(r: Result<T, CodecError<E>>) -> bool {
    r == Err::<T, CodecError<E>>(CodecError::Parameter(ParameterErrorKind::NeedPeekLayout))
}

/// Turns what a PNG function returns into what the caller gets.
fn metadata<E>(
    res: Result<Option<Vec<u8>>, image::ImageError>,
    failure: &Option<EntryFailure>,
) -> (r: Result<Option<Vec<u8>>, CodecError<E>>)
    ensures
        metadata_read(png::found(res), archive::fault_of(*failure), r),
{
    match res {
        Ok(v) => Ok(v),
        Err(e) => Err(set_ora_image_type(png::describe(e), failure)),
    }
}

impl<E> OpenRasterDecoder<E> {
    /// What holds of every decoder.
    pub open spec fn wf(self) -> bool {
        match self.state {
            OraState::Init(source) => source.wf(),
            OraState::Main(file, _, _) => file.wf() && archive::fault_of(file.core.fault)
                == file.contents().2,
            OraState::Failed => true,
        }
    }

    /// Whether this decoder has opened the merged image of a file, and whether it has decoded its
    /// pixels, or at least tried to.
    pub open spec fn opened(
        self,
        file: Seq<u8>,
        index: usize,
        limits: Limits,
        decoded: bool,
    ) -> bool {
        &&& self.state matches OraState::Main(f, l, d) && archive::zip_file(f.archive) == file
            && f.file_index == index && l == limits && d == decoded
        &&& self.limits is None
    }

    /// What `peek_layout` makes of the decoder `before`.
    pub open spec fn peeked(
        before: OpenRasterDecoder<E>,
        after: OpenRasterDecoder<E>,
        r: Result<ImageLayout, CodecError<E>>,
    ) -> bool {
        match before.state {
            OraState::Init(source) => if source.fault is Some {
                &&& r == Err::<ImageLayout, CodecError<E>>(
                    CodecError::Decoding(DecodingError::OpenRasterReader(source.fault->0)),
                )
                &&& after.state is Failed
                &&& after.limits == before.limits
            } else {
                match merged_image(source.rest()) {
                    Err(failure) => {
                        &&& r matches Err(e) && is_failure(e, failure)
                        &&& after.state is Failed
                        &&& after.limits == before.limits
                    },
                    Ok(index) => {
                        &&& after.opened(
                            source.rest(),
                            index,
                            before.pending_limits(),
                            false,
                        )
                        &&& layout_read(
                            after.state->Main_0,
                            after.state->Main_1,
                            r,
                        )
                    },
                }
            },
            OraState::Main(file, limits, false) => {
                &&& after == before
                &&& layout_read(file, limits, r)
            },
            _ => {
                &&& after == before
                &&& r == Err::<ImageLayout, CodecError<E>>(
                    CodecError::Parameter(ParameterErrorKind::NoMoreData),
                )
            },
        }
    }

    /// What `set_limits` makes of the decoder `before`.
    pub open spec fn limited(
        before: OpenRasterDecoder<E>,
        limits: Limits,
        after: OpenRasterDecoder<E>,
        r: Result<(), CodecError<E>>,
    ) -> bool {
        match before.state {
            OraState::Main(file, current, _) => {
                &&& after == before
                &&& match png::png_header(file.contents().1, current, usize::BITS) {
                    Ok(header) => r == (if limits.allows_dimensions(
                        header.width,
                        header.height,
                    ) {
                        Ok::<(), CodecError<E>>(())
                    } else {
                        Err(
                            CodecError::<E>::Limits(
                                crate::types::LimitErrorKind::DimensionError,
                            ),
                        )
                    }),
                    Err(fault) => r matches Err(e) && is_png_error(e, fault, file.contents().2),
                }
            },
            _ => {
                &&& r == Ok::<(), CodecError<E>>(())
                &&& after == (OpenRasterDecoder {
                    limits: Some(limits),
                    ..before
                })
            },
        }
    }

    /// A decoder that has not read anything.
    ///
    /// Limits apply to decoding the merged image, but not to reading the archive: archives with
    /// very many entries may take a lot of memory.
    pub fn new(r: ByteSource<E>) -> (d: OpenRasterDecoder<E>)
        requires
            r.wf(),
        ensures
            d.wf(),
            d == (OpenRasterDecoder { state: OraState::Init(r), limits: None }),
    {
        OpenRasterDecoder { state: OraState::Init(r), limits: None }
    }

    /// Opens the merged image, unless it has been opened, and returns its layout. There is but one
    /// image: once it has been read, there is nothing left.
    pub fn peek_layout(&mut self) -> (r: Result<ImageLayout, CodecError<E>>)
        requires
            old(self).wf(),
        ensures
            final(self).wf(),
            Self::peeked(*old(self), *final(self), r),
    {
        let mut state = OraState::Failed;
        std::mem::swap(&mut self.state, &mut state);
        match state {
            OraState::Init(source) => {
                if let Some(f) = source.fault {
                    return Err(CodecError::Decoding(DecodingError::OpenRasterReader(f)));
                }
                let bytes = vstd::slice::slice_to_vec(
                    vstd::slice::slice_subrange(
                        source.data.as_slice(),
                        source.pos,
                        source.data.len(),
                    ),
                );
                assert(bytes@ =~= source.rest());
                let file = open_merged_image(bytes)?;
                let limits = match self.limits.take() {
                    Some(limits) => limits,
                    None => Limits::no_limits(),
                };
                self.state = OraState::Main(file, limits, false);
            },
            _ => {
                self.state = state;
            },
        }
        match &self.state {
            OraState::Main(file, limits, false) => {
                match png::decode_header(file.core.data.as_slice(), *limits) {
                    Ok(header) => Ok(header.image_layout()),
                    Err(e) => Err(set_ora_image_type(png::describe(e), &file.core.fault)),
                }
            },
            _ => Err(CodecError::Parameter(ParameterErrorKind::NoMoreData)),
        }
    }

    /// The colour type of the merged image. `peek_layout` has to be called before.
    pub fn original_color_type(&mut self) -> (r: Result<ExtendedColorType, CodecError<E>>)
        requires
            old(self).wf(),
        ensures
            *final(self) == *old(self),
            match old(self).state {
                OraState::Main(file, limits, _) => match png::png_header(
                    file.contents().1,
                    limits,
                    usize::BITS,
                ) {
                    Ok(header) => r == Ok::<ExtendedColorType, CodecError<E>>(
                        extended(header.color()),
                    ),
                    Err(fault) => r matches Err(e) && is_png_error(e, fault, file.contents().2),
                },
                _ => too_early(r),
            },
    {
        match &self.state {
            OraState::Main(file, limits, _) => {
                match png::decode_header(file.core.data.as_slice(), *limits) {
                    Ok(header) => Ok(extended_color(header.image_layout().color)),
                    Err(e) => Err(set_ora_image_type(png::describe(e), &file.core.fault)),
                }
            },
            _ => Err(CodecError::Parameter(ParameterErrorKind::NeedPeekLayout)),
        }
    }

    /// What can be known of the metadata: what is known of PNG images, of which the merged image
    /// is a single one.
    pub fn attributes(&self, png: DecoderAttributes) -> (r: DecoderAttributes)
        ensures
            r == (DecoderAttributes { is_animated: false, is_sequence: false, ..png }),
    {
        DecoderAttributes {
            is_animated: false,
            is_sequence: false,
            icc: png.icc,
            exif: png.exif,
            xmp: png.xmp,
            iptc: png.iptc,
        }
    }

    /// Sets limits for decoding the merged image. Once it has been opened, only its size is
    /// checked.
    pub fn set_limits(&mut self, limits: Limits) -> (r: Result<(), CodecError<E>>)
        requires
            old(self).wf(),
        ensures
            final(self).wf(),
            Self::limited(*old(self), limits, *final(self), r),
    {
        match &self.state {
            OraState::Main(file, current, _) => {
                match png::decode_header(file.core.data.as_slice(), *current) {
                    Ok(header) => match limits.check_dimensions(header.width, header.height) {
                        Ok(()) => Ok(()),
                        Err(kind) => Err(CodecError::Limits(kind)),
                    },
                    Err(e) => Err(set_ora_image_type(png::describe(e), &file.core.fault)),
                }
            },
            _ => {
                self.limits = Some(limits);
                Ok(())
            },
        }
    }

    /// The colour profile of the merged image. `peek_layout` has to be called before.
    pub fn icc_profile(&mut self) -> (r: Result<Option<Vec<u8>>, CodecError<E>>)
        requires
            old(self).wf(),
        ensures
            *final(self) == *old(self),
            match old(self).state {
                OraState::Main(file, limits, _) => metadata_read(
                    png::png_icc(file.contents().1, limits, usize::BITS),
                    file.contents().2,
                    r,
                ),
                _ => too_early(r),
            },
    {
        match &self.state {
            OraState::Main(file, limits, _) => metadata(
                png::decode_icc(file.core.data.as_slice(), *limits),
                &file.core.fault,
            ),
            _ => Err(CodecError::Parameter(ParameterErrorKind::NeedPeekLayout)),
        }
    }

    /// The Exif metadata of the merged image. `peek_layout` has to be called before.
    pub fn exif_metadata(&mut self) -> (r: Result<Option<Vec<u8>>, CodecError<E>>)
        requires
            old(self).wf(),
        ensures
            *final(self) == *old(self),
            match old(self).state {
                OraState::Main(file, limits, _) => metadata_read(
                    png::png_exif(file.contents().1, limits, usize::BITS),
                    file.contents().2,
                    r,
                ),
                _ => too_early(r),
            },
    {
        match &self.state {
            OraState::Main(file, limits, _) => metadata(
                png::decode_exif(file.core.data.as_slice(), *limits),
                &file.core.fault,
            ),
            _ => Err(CodecError::Parameter(ParameterErrorKind::NeedPeekLayout)),
        }
    }

    /// The XMP metadata of the merged image. `peek_layout` has to be called before.
    pub fn xmp_metadata(&mut self) -> (r: Result<Option<Vec<u8>>, CodecError<E>>)
        requires
            old(self).wf(),
        ensures
            *final(self) == *old(self),
            match old(self).state {
                OraState::Main(file, limits, _) => metadata_read(
                    png::png_xmp(file.contents().1, limits, usize::BITS),
                    file.contents().2,
                    r,
                ),
                _ => too_early(r),
            },
    {
        match &self.state {
            OraState::Main(file, limits, _) => metadata(
                png::decode_xmp(file.core.data.as_slice(), *limits),
                &file.core.fault,
            ),
            _ => Err(CodecError::Parameter(ParameterErrorKind::NeedPeekLayout)),
        }
    }

    /// The IPTC metadata of the merged image. `peek_layout` has to be called before.
    pub fn iptc_metadata(&mut self) -> (r: Result<Option<Vec<u8>>, CodecError<E>>)
        requires
            old(self).wf(),
        ensures
            *final(self) == *old(self),
            match old(self).state {
                OraState::Main(file, limits, _) => metadata_read(
                    png::png_iptc(file.contents().1, limits, usize::BITS),
                    file.contents().2,
                    r,
                ),
                _ => too_early(r),
            },
    {
        match &self.state {
            OraState::Main(file, limits, _) => metadata(
                png::decode_iptc(file.core.data.as_slice(), *limits),
                &file.core.fault,
            ),
            _ => Err(CodecError::Parameter(ParameterErrorKind::NeedPeekLayout)),
        }
    }
}

/// What decoding an opened image into a buffer leaves there, and whether it succeeds. What is
/// left there by decoding that fails is not stated.
pub open spec fn pixels_read<E>(
    file: SeekableArchiveFile,
    limits: Limits,
    before: Seq<u8>,
    after: Seq<u8>,
    r: Result<(), CodecError<E>>,
) -> bool {
    let png = file.contents().1;
    &&& after.len() == before.len()
    &&& match png::png_header(png, limits, usize::BITS) {
        Err(fault) => {
            &&& r matches Err(e) && is_png_error(e, fault, file.contents().2)
            &&& after == before
        },
        Ok(header) => match png::png_pixels(png, limits, usize::BITS) {
            Ok(big) => {
                &&& r == Ok::<(), CodecError<E>>(())
                &&& png::in_order(
                    types::machine_order(),
                    header.pixel_bytes != header.channels,
                    big,
                    after,
                )
            },
            Err(fault) => r matches Err(e) && is_png_error(e, fault, file.contents().2),
        },
    }
}

/// Whether a buffer of this length fits an opened image.
pub open spec fn png_fits(png: Seq<u8>, limits: Limits, len: nat) -> bool {
    png::png_header(png, limits, usize::BITS) matches Ok(header) ==> len
        == header.layout().byte_count()
}

impl<E> OpenRasterDecoder<E> {
    /// The limits that will apply to decoding the merged image.
    pub open spec fn pending_limits(self) -> Limits {
        match self.limits {
            Some(limits) => limits,
            None => no_limits(),
        }
    }

    /// Whether a buffer of this length fits the merged image.
    pub open spec fn fits(self, len: nat) -> bool {
        match self.state {
            OraState::Init(source) => source.fault is None ==> (merged_image(
                source.rest(),
            ) matches Ok(index) ==> png_fits(
                archive::entry_contents(source.rest(), index)->Ok_0.1,
                self.pending_limits(),
                len,
            )),
            OraState::Main(file, limits, false) => png_fits(file.contents().1, limits, len),
            _ => true,
        }
    }

    /// What `read_image` makes of the decoder `before` and the buffer `buf0`.
    pub open spec fn image_read(
        before: OpenRasterDecoder<E>,
        buf0: Seq<u8>,
        after: OpenRasterDecoder<E>,
        buf1: Seq<u8>,
        r: Result<(), CodecError<E>>,
    ) -> bool {
        match before.state {
            OraState::Init(source) => if source.fault is Some {
                &&& r == Err::<(), CodecError<E>>(
                    CodecError::Decoding(DecodingError::OpenRasterReader(source.fault->0)),
                )
                &&& after.state is Failed
                &&& after.limits == before.limits
                &&& buf1 == buf0
            } else {
                match merged_image(source.rest()) {
                    Err(failure) => {
                        &&& r matches Err(e) && is_failure(e, failure)
                        &&& after.state is Failed
                        &&& after.limits == before.limits
                        &&& buf1 == buf0
                    },
                    Ok(index) => {
                        &&& after.opened(
                            source.rest(),
                            index,
                            before.pending_limits(),
                            png::png_header(
                                after.state->Main_0.contents().1,
                                before.pending_limits(),
                                usize::BITS,
                            ) is Ok,
                        )
                        &&& pixels_read(after.state->Main_0, after.state->Main_1, buf0, buf1, r)
                    },
                }
            },
            OraState::Main(file, limits, false) => {
                &&& after == (OpenRasterDecoder {
                    state: OraState::Main(
                        file,
                        limits,
                        png::png_header(file.contents().1, limits, usize::BITS) is Ok,
                    ),
                    ..before
                })
                &&& pixels_read(file, limits, buf0, buf1, r)
            },
            _ => {
                &&& after == before
                &&& r == Err::<(), CodecError<E>>(
                    CodecError::Parameter(ParameterErrorKind::NoMoreData),
                )
                &&& buf1 == buf0
            },
        }
    }

    /// Reads the image into `buf`, which has to have the length that the layout states. Samples
    /// of 16 bits are stored in the byte order of this machine. There is but one image: reading
    /// again fails.
    pub fn read_image(&mut self, buf: &mut [u8]) -> (r: Result<(), CodecError<E>>)
        requires
            old(self).wf(),
            old(self).fits(old(buf)@.len()),
        ensures
            final(self).wf(),
            Self::image_read(*old(self), old(buf)@, *final(self), final(buf)@, r),
    {
        self.peek_layout()?;
        match &mut self.state {
            OraState::Main(file, limits, decoded) => {
                *decoded = true;
                match png::decode_pixels(file.core.data.as_slice(), *limits, buf) {
                    Ok(()) => Ok(()),
                    Err(e) => Err(set_ora_image_type(png::describe(e), &file.core.fault)),
                }
            },
            _ => Err(CodecError::Parameter(ParameterErrorKind::NoMoreData)),
        }
    }

    /// Reads the image into `buf`, unless `buf` does not have the length that the layout states.
    /// Then the result is `None`, `buf` is as before, and the merged image is opened, but not read.
    pub fn try_read_image(&mut self, buf: &mut [u8]) -> (r: Option<Result<(), CodecError<E>>>)
        requires
            old(self).wf(),
        ensures
            final(self).wf(),
            match r {
                Some(r) => {
                    &&& old(self).fits(old(buf)@.len())
                    &&& Self::image_read(*old(self), old(buf)@, *final(self), final(buf)@, r)
                },
                None => {
                    &&& !old(self).fits(old(buf)@.len())
                    &&& final(buf)@ == old(buf)@
                    &&& match old(self).state {
                        OraState::Init(source) => final(self).opened(
                            source.rest(),
                            merged_image(source.rest())->Ok_0,
                            old(self).pending_limits(),
                            false,
                        ),
                        _ => *final(self) == *old(self),
                    }
                },
            },
    {
        match self.peek_layout() {
            Err(e) => Some(Err(e)),
            Ok(layout) => {
                if layout.fits(buf.len()) {
                    Some(self.read_image(buf))
                } else {
                    None
                }
            },
        }
    }
}

/// There is but one image: where it has been read, reading again gives the error that nothing is
/// left, and changes neither the decoder nor the buffer.
pub proof fn law_read_once<E>(
    before: OpenRasterDecoder<E>,
    buf0: Seq<u8>,
    between: OpenRasterDecoder<E>,
    buf1: Seq<u8>,
    after: OpenRasterDecoder<E>,
    buf2: Seq<u8>,
    buf3: Seq<u8>,
    again: Result<(), CodecError<E>>,
)
    requires
        OpenRasterDecoder::image_read(before, buf0, between, buf1, Ok(())),
        OpenRasterDecoder::image_read(between, buf2, after, buf3, again),
    ensures
        again == Err::<(), CodecError<E>>(CodecError::Parameter(ParameterErrorKind::NoMoreData)),
        after == between,
        buf3 == buf2,
{
}

} // verus!
