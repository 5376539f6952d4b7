//! Tests of the OpenRaster decoder.

use std::io::{ErrorKind, Write};

use image::ImageEncoder;
use image_extras::ora::archive::{EntryFailure, SeekFrom, SeekableArchiveFile, ZipEntry};
use image_extras::ora::png::PngProblem;
use image_extras::ora::{check_mimetype, set_ora_image_type, OpenRasterDecoder, OraDecodeError};
use image_extras::source::ByteSource;
use image_extras::types::{
    CodecError, ColorType, DecodedMetadataHint, DecoderAttributes, DecodingError,
    ExtendedColorType, ImageLayout, IoFailure, LimitErrorKind, Limits, ParameterErrorKind,
    UnsupportedFeature,
};

type Failure = CodecError<String>;

/// An archive with these entries.
fn archive(entries: &[(&str, &[u8])]) -> Vec<u8> {
    let mut w = zip::ZipWriter::new(std::io::Cursor::new(Vec::new()));
    for (name, bytes) in entries {
        w.start_file(*name, zip::write::SimpleFileOptions::default()).unwrap();
        w.write_all(bytes).unwrap();
    }
    w.finish().unwrap().into_inner()
}

/// An OpenRaster file with this merged image.
fn ora(png: &[u8]) -> Vec<u8> {
    archive(&[("mimetype", b"image/openraster"), ("mergedimage.png", png)])
}

fn png(pixels: &[u8], width: u32, height: u32, color: image::ExtendedColorType) -> Vec<u8> {
    let mut out = Vec::new();
    image::codecs::png::PngEncoder::new(&mut out)
        .write_image(pixels, width, height, color)
        .unwrap();
    out
}

fn crc32(bytes: &[u8]) -> u32 {
    let mut crc = u32::MAX;
    for b in bytes {
        crc ^= *b as u32;
        for _ in 0..8 {
            crc = if crc & 1 == 1 { (crc >> 1) ^ 0xedb8_8320 } else { crc >> 1 };
        }
    }
    !crc
}

/// A PNG image with one more chunk behind its header.
fn with_chunk(png: &[u8], name: &[u8], data: &[u8]) -> Vec<u8> {
    let mut chunk = name.to_vec();
    chunk.extend_from_slice(data);
    let mut out = png[..33].to_vec();
    out.extend_from_slice(&(data.len() as u32).to_be_bytes());
    out.extend_from_slice(&chunk);
    out.extend_from_slice(&crc32(&chunk).to_be_bytes());
    out.extend_from_slice(&png[33..]);
    out
}

fn decoder(file: Vec<u8>) -> OpenRasterDecoder<String> {
    OpenRasterDecoder::new(ByteSource::new(file, None))
}

fn layout_error(file: Vec<u8>) -> Failure {
    let mut d = decoder(file);
    match d.peek_layout() {
        Ok(_) => panic!("the file was accepted"),
        Err(e) => e,
    }
}

fn need_peek<T>() -> Result<T, Failure> {
    Err(CodecError::Parameter(ParameterErrorKind::NeedPeekLayout))
}

const RGB: [u8; 6] = [1, 2, 3, 4, 5, 6];

fn rgb_file() -> Vec<u8> {
    ora(&png(&RGB, 2, 1, image::ExtendedColorType::Rgb8))
}

#[test]
fn ora_merged_image_is_decoded() {
    let mut d = decoder(rgb_file());
    let layout = ImageLayout { color: ColorType::Rgb8, width: 2, height: 1 };
    assert_eq!(d.peek_layout(), Ok(layout));
    assert_eq!(d.peek_layout(), Ok(layout));
    assert_eq!(d.original_color_type(), Ok(ExtendedColorType::Rgb8));
    let mut buf = [0u8; 6];
    assert_eq!(d.read_image(&mut buf), Ok(()));
    assert_eq!(buf, RGB);
    // Without asking for the layout first, and into a buffer of another length.
    let mut buf = [0u8; 6];
    assert_eq!(decoder(rgb_file()).try_read_image(&mut buf), Some(Ok(())));
    assert_eq!(buf, RGB);
    let mut buf = [7u8; 5];
    assert_eq!(decoder(rgb_file()).try_read_image(&mut buf), None);
    assert_eq!(buf, [7; 5]);
}

#[test]
fn ora_colour_types() {
    let types = [
        (image::ExtendedColorType::L8, ColorType::L8, ExtendedColorType::L8, 1),
        (image::ExtendedColorType::La8, ColorType::La8, ExtendedColorType::La8, 2),
        (image::ExtendedColorType::Rgb8, ColorType::Rgb8, ExtendedColorType::Rgb8, 3),
        (image::ExtendedColorType::Rgba8, ColorType::Rgba8, ExtendedColorType::Rgba8, 4),
        (image::ExtendedColorType::L16, ColorType::L16, ExtendedColorType::L16, 2),
        (image::ExtendedColorType::La16, ColorType::La16, ExtendedColorType::La16, 4),
        (image::ExtendedColorType::Rgb16, ColorType::Rgb16, ExtendedColorType::Rgb16, 6),
        (image::ExtendedColorType::Rgba16, ColorType::Rgba16, ExtendedColorType::Rgba16, 8),
    ];
    for (stored, color, original, n) in types {
        let pixels: Vec<u8> = (1..=n as u8).collect();
        let mut d = decoder(ora(&png(&pixels, 1, 1, stored)));
        assert_eq!(d.peek_layout(), Ok(ImageLayout { color, width: 1, height: 1 }));
        assert_eq!(d.original_color_type(), Ok(original));
        let mut buf = vec![0u8; n];
        assert_eq!(d.read_image(&mut buf), Ok(()));
        assert_eq!(buf, pixels);
    }
}

#[test]
fn ora_functions_in_the_wrong_order() {
    let mut d = decoder(rgb_file());
    assert_eq!(d.original_color_type(), need_peek());
    assert_eq!(d.icc_profile(), need_peek());
    assert_eq!(d.exif_metadata(), need_peek());
    assert_eq!(d.xmp_metadata(), need_peek());
    assert_eq!(d.iptc_metadata(), need_peek());
    assert_eq!(
        ParameterErrorKind::NeedPeekLayout.message(),
        "Need to call peek_layout() first"
    );
}

#[test]
fn ora_metadata() {
    let mut plain = decoder(rgb_file());
    assert!(plain.peek_layout().is_ok());
    assert_eq!(plain.icc_profile(), Ok(None));
    assert_eq!(plain.exif_metadata(), Ok(None));
    assert_eq!(plain.xmp_metadata(), Ok(None));
    assert_eq!(plain.iptc_metadata(), Ok(None));

    let mut image = Vec::new();
    let mut encoder = image::codecs::png::PngEncoder::new(&mut image);
    encoder.set_icc_profile(vec![9, 8, 7]).unwrap();
    encoder.write_image(&RGB, 2, 1, image::ExtendedColorType::Rgb8).unwrap();
    let image = with_chunk(&image, b"eXIf", &[5, 6, 7, 8]);
    let image = with_chunk(&image, b"iTXt", b"XML:com.adobe.xmp\0\0\0\0\0<x/>");
    let image = with_chunk(&image, b"tEXt", b"Raw profile type iptc\0abc");
    let mut d = decoder(ora(&image));
    assert!(d.peek_layout().is_ok());
    assert_eq!(d.icc_profile(), Ok(Some(vec![9, 8, 7])));
    assert_eq!(d.exif_metadata(), Ok(Some(vec![5, 6, 7, 8])));
    assert_eq!(d.xmp_metadata(), Ok(Some(b"<x/>".to_vec())));
    assert_eq!(d.iptc_metadata(), Ok(Some(b"abc".to_vec())));
}

#[test]
fn ora_attributes_are_those_of_a_single_image() {
    let png = DecoderAttributes {
        is_animated: true,
        is_sequence: true,
        icc: DecodedMetadataHint::InHeader,
        exif: DecodedMetadataHint::InHeader,
        xmp: DecodedMetadataHint::Unknown,
        iptc: DecodedMetadataHint::Absent,
    };
    assert_eq!(
        decoder(Vec::new()).attributes(png),
        DecoderAttributes { is_animated: false, is_sequence: false, ..png }
    );
}

#[test]
fn ora_archives_without_the_right_entries() {
    let wrapped = |e: OraDecodeError| CodecError::Decoding(DecodingError::OpenRaster(e));
    assert!(matches!(
        layout_error(b"not an archive".to_vec()),
        CodecError::Decoding(DecodingError::OpenRaster(OraDecodeError::Archive(_)))
    ));
    assert_eq!(
        layout_error(archive(&[("other", b"")])),
        wrapped(OraDecodeError::MissingMimetype)
    );
    assert_eq!(
        layout_error(archive(&[("mimetype", b"image/openrast")])),
        CodecError::IoError(IoFailure::UnexpectedEof)
    );
    assert_eq!(
        layout_error(archive(&[("mimetype", b"image/openraster2")])),
        wrapped(OraDecodeError::WrongMimetype)
    );
    assert_eq!(
        layout_error(archive(&[("mimetype", b"image/openrasterr")])),
        wrapped(OraDecodeError::WrongMimetype)
    );
    assert_eq!(
        layout_error(archive(&[("mimetype", b"image/openraste!")])),
        wrapped(OraDecodeError::WrongMimetype)
    );
    assert_eq!(
        layout_error(archive(&[("mimetype", b"image/openraster")])),
        wrapped(OraDecodeError::MissingMergedImage)
    );
}

#[test]
fn ora_failures_are_final() {
    let mut d = decoder(archive(&[("other", b"")]));
    assert!(d.peek_layout().is_err());
    assert_eq!(
        d.peek_layout(),
        Err(CodecError::Parameter(ParameterErrorKind::NoMoreData))
    );
    let mut buf = [7u8; 3];
    assert_eq!(
        d.read_image(&mut buf),
        Err(CodecError::Parameter(ParameterErrorKind::NoMoreData))
    );
    assert_eq!(buf, [7; 3]);
}

#[test]
fn ora_merged_images_that_are_broken() {
    let image = png(&RGB, 2, 1, image::ExtendedColorType::Rgb8);
    let mut d = decoder(ora(b"not an image, not at all"));
    assert!(matches!(
        d.peek_layout(),
        Err(CodecError::Decoding(DecodingError::OpenRaster(OraDecodeError::Png(_))))
    ));
    // The archive is good, so the error comes again.
    assert!(matches!(
        d.peek_layout(),
        Err(CodecError::Decoding(DecodingError::OpenRaster(OraDecodeError::Png(_))))
    ));
    let mut d = decoder(ora(&image[..20]));
    assert_eq!(d.peek_layout(), Err(CodecError::IoError(IoFailure::UnexpectedEof)));
    let mut d = decoder(ora(&image[..45]));
    let mut buf = [0u8; 6];
    assert!(d.try_read_image(&mut buf).unwrap().is_err());
}

#[test]
fn ora_reader_errors() {
    let mut d: OpenRasterDecoder<String> =
        OpenRasterDecoder::new(ByteSource::new(rgb_file(), Some("broken".to_string())));
    assert_eq!(
        d.peek_layout(),
        Err(CodecError::Decoding(DecodingError::OpenRasterReader("broken".to_string())))
    );
    assert_eq!(
        d.peek_layout(),
        Err(CodecError::Parameter(ParameterErrorKind::NoMoreData))
    );
    let mut d: OpenRasterDecoder<String> =
        OpenRasterDecoder::new(ByteSource::new(rgb_file(), Some("broken".to_string())));
    let mut buf = [7u8; 6];
    assert_eq!(
        d.read_image(&mut buf),
        Err(CodecError::Decoding(DecodingError::OpenRasterReader("broken".to_string())))
    );
    assert_eq!(buf, [7; 6]);
}

#[test]
fn ora_images_are_read_once() {
    let mut d = decoder(rgb_file());
    let mut buf = [0u8; 6];
    assert_eq!(d.read_image(&mut buf), Ok(()));
    assert_eq!(buf, RGB);
    let mut again = [7u8; 6];
    assert_eq!(
        d.read_image(&mut again),
        Err(CodecError::Parameter(ParameterErrorKind::NoMoreData))
    );
    assert_eq!(again, [7; 6]);
    assert_eq!(
        d.try_read_image(&mut again),
        Some(Err(CodecError::Parameter(ParameterErrorKind::NoMoreData)))
    );
    assert_eq!(
        d.peek_layout(),
        Err(CodecError::Parameter(ParameterErrorKind::NoMoreData))
    );
    // What the image says of itself is still known.
    assert_eq!(d.original_color_type(), Ok(ExtendedColorType::Rgb8));
    assert_eq!(d.icc_profile(), Ok(None));
    // A buffer of another length leaves the image to be read.
    let mut d = decoder(rgb_file());
    assert_eq!(d.try_read_image(&mut [7u8; 5]), None);
    assert_eq!(d.try_read_image(&mut buf), Some(Ok(())));
}

/// Changes the size that an archive states for one of its entries.
fn with_stated_size(mut zip: Vec<u8>, entry: usize, size: u32) -> Vec<u8> {
    let starts: Vec<usize> =
        (0..zip.len() - 4).filter(|i| zip[*i..*i + 4] == [0x50, 0x4b, 1, 2]).collect();
    zip[starts[entry] + 24..starts[entry] + 28].copy_from_slice(&size.to_le_bytes());
    zip
}

#[test]
fn ora_entries_that_are_longer_than_stated() {
    let too_large = || -> Failure {
        CodecError::IoError(IoFailure::Failed(
            ErrorKind::InvalidData,
            "File is larger than its declared uncompressed size".to_string(),
        ))
    };
    let image = png(&RGB, 2, 1, image::ExtendedColorType::Rgb8);
    let size = image.len() as u32;
    let mut buf = [0u8; 6];
    let mut d = decoder(with_stated_size(ora(&image), 1, size));
    assert_eq!(d.read_image(&mut buf), Ok(()));
    assert_eq!(buf, RGB);
    // The whole image is there, but it is not delivered.
    assert_eq!(layout_error(with_stated_size(ora(&image), 1, size - 1)), too_large());
    let mut long = image.clone();
    long.push(0);
    assert_eq!(layout_error(with_stated_size(ora(&long), 1, size)), too_large());
    // In the first bytes everything is as stated, so they are delivered.
    long.resize(9000, 0);
    let mut buf = [0u8; 6];
    let mut d = decoder(with_stated_size(ora(&long), 1, 8999));
    assert_eq!(d.read_image(&mut buf), Ok(()));
    assert_eq!(buf, RGB);
    // Of the type, no more is read than a type has.
    let file = archive(&[("mimetype", b"image/openraster2"), ("mergedimage.png", &image)]);
    let mut buf = [0u8; 6];
    assert_eq!(decoder(with_stated_size(file.clone(), 0, 16)).read_image(&mut buf), Ok(()));
    assert_eq!(buf, RGB);
    assert_eq!(layout_error(with_stated_size(file, 0, 15)), too_large());
}

/// Changes the first byte that is stored for one of the entries of an archive.
fn with_stored_byte(mut zip: Vec<u8>, entry: usize, byte: u8) -> Vec<u8> {
    let starts: Vec<usize> =
        (0..zip.len() - 4).filter(|i| zip[*i..*i + 4] == [0x50, 0x4b, 3, 4]).collect();
    let at = starts[entry];
    let length = |i: usize| zip[at + i] as usize + 256 * zip[at + i + 1] as usize;
    let data = at + 30 + length(26) + length(28);
    zip[data] = byte;
    zip
}

#[test]
fn ora_entries_that_cannot_be_unpacked() {
    // There are no blocks of the type that the byte states.
    let unpacked = |e: Failure| match e {
        CodecError::IoError(IoFailure::Failed(kind, text)) => {
            assert_eq!(kind, ErrorKind::InvalidInput);
            assert_eq!(text, "corrupt deflate stream");
        }
        e => panic!("{:?}", e),
    };
    unpacked(layout_error(with_stored_byte(rgb_file(), 0, 0xff)));
    unpacked(layout_error(with_stored_byte(rgb_file(), 1, 0xff)));
    let mut buf = [7u8; 6];
    let mut d = decoder(with_stored_byte(rgb_file(), 1, 0xff));
    unpacked(d.read_image(&mut buf).unwrap_err());
    assert_eq!(buf, [7; 6]);
}

#[test]
fn ora_entries_of_several_chunks() {
    // Noise, so that the image is longer than one chunk.
    let mut seed: u32 = 1;
    let pixels: Vec<u8> = (0..30000)
        .map(|_| {
            seed = seed.wrapping_mul(1664525).wrapping_add(1013904223);
            (seed >> 24) as u8
        })
        .collect();
    let image = png(&pixels, 100, 100, image::ExtendedColorType::Rgb8);
    assert!(image.len() > 8192);
    let mut buf = vec![0u8; 30000];
    assert_eq!(decoder(ora(&image)).read_image(&mut buf), Ok(()));
    assert_eq!(buf, pixels);
}

#[test]
fn ora_limits() {
    let none = Limits::no_limits();
    let narrow = Limits { max_image_width: Some(1), ..none };
    let dimensions: Failure = CodecError::Limits(LimitErrorKind::DimensionError);
    let mut d = decoder(rgb_file());
    assert_eq!(d.set_limits(narrow), Ok(()));
    assert_eq!(d.peek_layout(), Err(dimensions));
    // Once the image has been opened, its size is checked at once.
    let mut d = decoder(rgb_file());
    assert!(d.peek_layout().is_ok());
    assert_eq!(
        d.set_limits(narrow),
        Err(CodecError::Limits(LimitErrorKind::DimensionError))
    );
    assert_eq!(d.set_limits(Limits { max_image_width: Some(2), ..none }), Ok(()));
}

#[test]
fn ora_types_are_checked() {
    let entry = |size: u64, bytes: &[u8], failure: Option<&str>| ZipEntry {
        size,
        bytes: bytes.to_vec(),
        failure: failure.map(|s| EntryFailure::Io(ErrorKind::InvalidInput, s.to_string())),
    };
    let check = |e: ZipEntry| -> Result<(), Failure> { check_mimetype(&e) };
    assert_eq!(check(entry(16, b"image/openraster", None)), Ok(()));
    // An error behind the type does not matter.
    assert_eq!(check(entry(16, b"image/openraster", Some("odd"))), Ok(()));
    assert_eq!(
        check(entry(17, b"image/openraster", None)),
        Err(CodecError::Decoding(DecodingError::OpenRaster(OraDecodeError::WrongMimetype)))
    );
    assert_eq!(
        check(entry(16, b"image/", Some("odd"))),
        Err(CodecError::IoError(IoFailure::Failed(ErrorKind::InvalidInput, "odd".to_string())))
    );
}

#[test]
fn ora_errors_of_the_image() {
    let set = |p: PngProblem, failure: Option<&str>| -> Failure {
        let io = |s: &str| EntryFailure::Io(ErrorKind::InvalidInput, s.to_string());
        set_ora_image_type(p, &failure.map(io))
    };
    assert_eq!(
        set(PngProblem::Decoding("odd".to_string()), None),
        CodecError::Decoding(DecodingError::OpenRaster(OraDecodeError::Png("odd".to_string())))
    );
    assert_eq!(
        set(PngProblem::Parameter("odd".to_string()), None),
        CodecError::Parameter(ParameterErrorKind::Generic("odd".to_string()))
    );
    assert_eq!(
        set(PngProblem::Limits(LimitErrorKind::InsufficientMemory), None),
        CodecError::Limits(LimitErrorKind::InsufficientMemory)
    );
    assert_eq!(
        set(PngProblem::Unsupported("odd".to_string()), None),
        CodecError::Unsupported(UnsupportedFeature::OpenRaster("odd".to_string()))
    );
    assert_eq!(set(PngProblem::Eof, None), CodecError::IoError(IoFailure::UnexpectedEof));
    assert_eq!(
        set(PngProblem::Eof, Some("crc")),
        CodecError::IoError(IoFailure::Failed(ErrorKind::InvalidInput, "crc".to_string()))
    );
    assert_eq!(
        set_ora_image_type::<String>(PngProblem::Eof, &Some(EntryFailure::TooLong)),
        CodecError::IoError(IoFailure::Other("the entry is too long".to_string()))
    );
    assert_eq!(
        set(PngProblem::Io(ErrorKind::BrokenPipe, "odd".to_string()), None),
        CodecError::IoError(IoFailure::Failed(ErrorKind::BrokenPipe, "odd".to_string()))
    );
}

#[test]
fn ora_messages() {
    assert_eq!(
        OraDecodeError::MissingMimetype.message(),
        "OpenRaster images should contain a mimetype subfile"
    );
    assert_eq!(
        OraDecodeError::WrongMimetype.message(),
        "Image did not have correct mimetype subentry to be identified as OpenRaster"
    );
    assert_eq!(
        OraDecodeError::MissingMergedImage.message(),
        "OpenRaster image missing mergedimage.png entry"
    );
    assert_eq!(OraDecodeError::Archive("odd".to_string()).message(), "odd");
    assert_eq!(OraDecodeError::Entry("odd".to_string()).message(), "odd");
    assert_eq!(OraDecodeError::Png("odd".to_string()).message(), "odd");
}

/// A file of 5000 bytes in an archive.
fn seekable() -> (Vec<u8>, SeekableArchiveFile) {
    let bytes: Vec<u8> = (0..5000u32).map(|i| (i * i % 251) as u8).collect();
    let zip = archive(&[("first", b"x"), ("second", &bytes)]);
    let zip = zip::ZipArchive::new(std::io::Cursor::new(zip)).unwrap();
    let index = zip.index_for_name("second").unwrap();
    match SeekableArchiveFile::new(zip, index) {
        Ok(f) => (bytes, f),
        Err(e) => panic!("{}", e),
    }
}

#[test]
fn archive_entries_are_read_from_any_position() {
    let (bytes, mut f) = seekable();
    let mut buf = [0u8; 10];
    assert_eq!(f.read(&mut buf), Ok(10));
    assert_eq!(buf[..], bytes[..10]);
    assert_eq!(f.seek(SeekFrom::Start(3000)), Ok(3000));
    assert_eq!(f.read(&mut buf), Ok(10));
    assert_eq!(buf[..], bytes[3000..3010]);
    assert_eq!(f.seek(SeekFrom::Current(-2000)), Ok(1010));
    assert_eq!(f.read(&mut buf), Ok(10));
    assert_eq!(buf[..], bytes[1010..1020]);
    assert_eq!(f.seek(SeekFrom::End(-5)), Ok(4995));
    assert_eq!(f.read(&mut buf), Ok(5));
    assert_eq!(buf[..5], bytes[4995..]);
    assert_eq!(f.read(&mut buf), Ok(0));
    assert_eq!(f.seek(SeekFrom::Start(0)), Ok(0));
    assert_eq!(f.read(&mut buf), Ok(10));
    assert_eq!(buf[..], bytes[..10]);
}

#[test]
fn archive_positions_that_do_not_exist() {
    let (_, mut f) = seekable();
    let flow = || Err(IoFailure::Other("seek position over or underflow".to_string()));
    assert_eq!(f.seek(SeekFrom::Current(-1)), flow());
    assert_eq!(f.seek(SeekFrom::End(-5001)), flow());
    assert_eq!(
        f.seek(SeekFrom::End(1)),
        Err(IoFailure::Other("unexpected eof when seeking".to_string()))
    );
    assert_eq!(f.seek(SeekFrom::End(0)), Ok(5000));
    assert_eq!(
        f.seek(SeekFrom::Start(5001)),
        Err(IoFailure::Other("unexpected eof when seeking".to_string()))
    );
}

#[test]
fn archive_entries_that_do_not_exist() {
    let zip = archive(&[("first", b"x")]);
    let zip = zip::ZipArchive::new(std::io::Cursor::new(zip)).unwrap();
    match SeekableArchiveFile::new(zip, 7) {
        Ok(_) => panic!("the entry was opened"),
        Err(e) => assert_eq!(e, "failed to open: FileNotFound"),
    }
}
