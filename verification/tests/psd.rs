//! Tests of the PSD decoder.

use image_extras::psd::{
    interpret_header, read_at_most_limit, PsdBitDepth, PsdColorSpace, PsdDecoder, PsdHeader,
    PsdPixels,
};
use image_extras::source::ByteSource;
use image_extras::types::{
    CodecError, ColorType, DecodingError, IoFailure, LimitErrorKind, Limits, UnsupportedFeature,
};

type Failure = CodecError<String>;

/// A file: mode 1 is grey, 3 is RGB and 4 is CMYK.
fn file(mode: u16, channels: u16, depth: u16, width: u32, height: u32, rle: bool) -> Vec<u8> {
    let mut f = b"8BPS".to_vec();
    f.extend_from_slice(&1u16.to_be_bytes());
    f.extend_from_slice(&[0; 6]);
    f.extend_from_slice(&channels.to_be_bytes());
    f.extend_from_slice(&height.to_be_bytes());
    f.extend_from_slice(&width.to_be_bytes());
    f.extend_from_slice(&depth.to_be_bytes());
    f.extend_from_slice(&mode.to_be_bytes());
    f.extend_from_slice(&[0; 12]);
    f.extend_from_slice(&(rle as u16).to_be_bytes());
    f
}

fn open(file: Vec<u8>) -> Result<PsdDecoder<String>, Failure> {
    PsdDecoder::with_limits(ByteSource::new(file, None), Limits::no_limits())
}

fn open_error(file: Vec<u8>) -> Failure {
    match open(file) {
        Ok(_) => panic!("the header was accepted"),
        Err(e) => e,
    }
}

#[test]
fn psd_grey_image() {
    let mut f = file(1, 1, 8, 3, 2, false);
    f.extend_from_slice(&[1, 2, 3, 4, 5, 6]);
    let d = open(f).unwrap_or_else(|e| panic!("{:?}", e));
    assert_eq!(d.dimensions(), (3, 2));
    assert_eq!(d.color_type(), ColorType::L8);
    let mut buf = [0u8; 6];
    assert_eq!(d.try_read_image(&mut buf), Some(Ok(())));
    assert_eq!(buf, [1, 2, 3, 4, 5, 6]);
}

#[test]
fn psd_compressed_colour_image() {
    let mut f = file(3, 3, 8, 4, 1, true);
    f.extend_from_slice(&[0; 6]);
    // Each channel: a literal packet, or a repeated byte.
    f.extend_from_slice(&[3, 1, 2, 3, 4]);
    f.extend_from_slice(&[0xfd, 9]);
    f.extend_from_slice(&[1, 5, 6, 0xff, 7]);
    let d = open(f).unwrap_or_else(|e| panic!("{:?}", e));
    assert_eq!(d.color_type(), ColorType::Rgb8);
    let mut buf = [0u8; 12];
    assert_eq!(d.read_image(&mut buf), Ok(()));
    assert_eq!(buf, [1, 9, 5, 2, 9, 6, 3, 9, 7, 4, 9, 7]);
}

#[test]
fn psd_deep_colour_image() {
    let mut f = file(3, 3, 16, 1, 1, false);
    f.extend_from_slice(&[0x12, 0x34, 0x56, 0x78, 0x9a, 0xbc]);
    let d = open(f).unwrap_or_else(|e| panic!("{:?}", e));
    assert_eq!(d.color_type(), ColorType::Rgb16);
    let mut buf = [0u8; 6];
    assert_eq!(d.read_image(&mut buf), Ok(()));
    assert_eq!(buf, [0x12, 0x34, 0x56, 0x78, 0x9a, 0xbc]);
}

#[test]
fn psd_files_with_another_number_of_samples() {
    // Grey images with samples of 16 bits have one channel, but are announced with two.
    let mut f = file(1, 1, 16, 1, 1, false);
    f.extend_from_slice(&[0x12, 0x34]);
    let d = open(f).unwrap_or_else(|e| panic!("{:?}", e));
    assert_eq!(d.color_type(), ColorType::La16);
    let mut buf = [7u8; 4];
    assert_eq!(d.try_read_image(&mut buf), None);
    assert_eq!(buf, [7; 4]);
}

#[test]
fn psd_header_errors() {
    assert_eq!(
        open_error(vec![0; 40]),
        CodecError::Decoding(DecodingError::Psd(
            "Expected [56, 66, 80, 83] but found  [0, 0, 0, 0], not a PSD image\n".to_string()
        ))
    );
    assert!(matches!(
        open_error(b"8BPS".to_vec()),
        CodecError::Decoding(DecodingError::Psd(_))
    ));
    assert!(matches!(
        open_error(file(1, 1, 8, 0, 1, false)),
        CodecError::Decoding(DecodingError::Psd(_))
    ));
    assert_eq!(
        open_error(file(4, 4, 8, 1, 1, false)),
        CodecError::Unsupported(UnsupportedFeature::PsdColor(
            PsdColorSpace::CMYK,
            PsdBitDepth::Eight
        ))
    );
    assert_eq!(
        UnsupportedFeature::PsdColor(PsdColorSpace::CMYK, PsdBitDepth::Eight).message(),
        "Unsupported color space CMYK and bit depth Eight"
    );
}

#[test]
fn psd_images_that_end_too_early() {
    let mut f = file(1, 1, 8, 3, 2, false);
    f.extend_from_slice(&[1, 2, 3]);
    let d = open(f).unwrap_or_else(|e| panic!("{:?}", e));
    let mut buf = [7u8; 6];
    match d.read_image(&mut buf) {
        Err(CodecError::Decoding(DecodingError::Psd(_))) => (),
        r => panic!("{:?}", r),
    }
    assert_eq!(buf, [7; 6]);
}

#[test]
fn psd_size_limits() {
    let read = |limits: Limits| {
        PsdDecoder::<String>::with_limits(
            ByteSource::new(file(1, 1, 8, 3, 2, false), None),
            limits,
        )
        .is_ok()
    };
    let none = Limits::no_limits();
    assert!(read(Limits { max_image_width: Some(3), max_image_height: Some(2), ..none }));
    assert!(!read(Limits { max_image_width: Some(2), ..none }));
    assert!(!read(Limits { max_image_height: Some(1), ..none }));
}

#[test]
fn psd_memory_limits() {
    let mut f = file(1, 1, 8, 3, 2, false);
    f.extend_from_slice(&[1, 2, 3, 4, 5, 6]);
    let n = f.len() as u64;
    let limited = |max: u64| {
        PsdDecoder::<String>::with_limits(
            ByteSource::new(f.clone(), None),
            Limits { max_alloc: Some(max), ..Limits::no_limits() },
        )
    };
    match limited(n - 1) {
        Err(e) => assert_eq!(e, CodecError::Limits(LimitErrorKind::InsufficientMemory)),
        Ok(_) => panic!("the file was accepted"),
    }
    let mut buf = [0u8; 6];
    let d = limited(n + 7).unwrap_or_else(|e| panic!("{:?}", e));
    assert_eq!(
        d.read_image(&mut buf),
        Err(CodecError::Limits(LimitErrorKind::InsufficientMemory))
    );
    let d = limited(n + 8).unwrap_or_else(|e| panic!("{:?}", e));
    assert_eq!(d.read_image(&mut buf), Ok(()));
    assert_eq!(buf, [1, 2, 3, 4, 5, 6]);
}

#[test]
fn psd_reads_at_most_the_limit() {
    let bytes: Vec<u8> = (0..10000u32).map(|i| i as u8).collect();
    let read = |limit: usize, window: usize| {
        let mut s: ByteSource<String> = ByteSource::new(bytes.clone(), None).with_window(window);
        read_at_most_limit(&mut s, limit)
    };
    for window in [1usize, 100, 4096, 100000] {
        assert_eq!(read(10000, window), Ok(Some(bytes.clone())));
        assert_eq!(read(20000, window), Ok(Some(bytes.clone())));
        assert_eq!(read(9999, window), Ok(None));
        assert_eq!(read(0, window), Ok(None));
        assert_eq!(read(usize::MAX, window), Ok(Some(bytes.clone())));
    }
    let mut s: ByteSource<String> = ByteSource::new(Vec::new(), None);
    assert_eq!(read_at_most_limit(&mut s, 0), Ok(Some(Vec::new())));
    let mut s: ByteSource<String> = ByteSource::new(vec![1], Some("broken".to_string()));
    assert_eq!(
        read_at_most_limit(&mut s, 10),
        Err(IoFailure::Reader("broken".to_string()))
    );
}

#[test]
fn psd_sections_that_are_longer_than_the_file() {
    for section in 0..3 {
        let mut f = file(1, 1, 8, 3, 2, false);
        f.extend_from_slice(&[1, 2, 3, 4, 5, 6]);
        let at = 26 + 4 * section;
        f[at..at + 4].copy_from_slice(&u32::MAX.to_be_bytes());
        assert!(matches!(open_error(f), CodecError::Decoding(DecodingError::Psd(_))));
    }
}

#[test]
fn psd_reader_errors() {
    let r = PsdDecoder::<String>::with_limits(
        ByteSource::new(file(1, 1, 8, 3, 2, false), Some("broken".to_string())),
        Limits::no_limits(),
    );
    match r {
        Err(e) => assert_eq!(e, CodecError::IoError(IoFailure::Reader("broken".to_string()))),
        Ok(_) => panic!("the file was accepted"),
    }
}

#[test]
fn psd_colour_types() {
    let types = [
        (PsdColorSpace::Luma, PsdBitDepth::Eight, ColorType::L8),
        (PsdColorSpace::LumaA, PsdBitDepth::Eight, ColorType::La8),
        (PsdColorSpace::RGB, PsdBitDepth::Eight, ColorType::Rgb8),
        (PsdColorSpace::RGBA, PsdBitDepth::Eight, ColorType::Rgba8),
        (PsdColorSpace::Luma, PsdBitDepth::Sixteen, ColorType::La16),
        (PsdColorSpace::LumaA, PsdBitDepth::Sixteen, ColorType::La16),
        (PsdColorSpace::RGB, PsdBitDepth::Sixteen, ColorType::Rgb16),
        (PsdColorSpace::RGBA, PsdBitDepth::Sixteen, ColorType::Rgba16),
    ];
    for (color_space, bit_depth, color) in types {
        let header = PsdHeader { width: 2, height: 3, color_space, bit_depth };
        let r: Result<((u32, u32), ColorType), Failure> = interpret_header(header);
        assert_eq!(r, Ok(((2, 3), color)));
    }
    let header = PsdHeader {
        width: 0x1_0000_0000,
        height: 1,
        color_space: PsdColorSpace::RGB,
        bit_depth: PsdBitDepth::Eight,
    };
    let r: Result<((u32, u32), ColorType), Failure> = interpret_header(header);
    assert_eq!(r, Err(CodecError::Limits(LimitErrorKind::DimensionError)));
}

#[test]
fn psd_samples_are_copied_in_the_order_of_the_machine() {
    let mut buf = [0u8; 4];
    PsdPixels::U16(vec![0x1234, 0x5678]).copy_to(&mut buf);
    let mut expected = Vec::new();
    expected.extend_from_slice(&0x1234u16.to_ne_bytes());
    expected.extend_from_slice(&0x5678u16.to_ne_bytes());
    assert_eq!(buf.to_vec(), expected);
    PsdPixels::U8(vec![1, 2, 3, 4]).copy_to(&mut buf);
    assert_eq!(buf, [1, 2, 3, 4]);
}
