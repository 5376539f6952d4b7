//! Tests of the PCX decoder.

use image_extras::pcx::{convert_pcx_decode_error, expand_palette, PCXDecoder, PcxProblem};
use image_extras::source::ByteSource;
use image_extras::types::{
    CodecError, ColorType, ExtendedColorType, ImageLayout, IoFailure, ParameterErrorKind,
};

type Failure = CodecError<String>;

/// A file header, for rows of `lane` bytes in each plane.
fn header(encoding: u8, depth: u8, planes: u8, width: u16, height: u16, lane: u16) -> Vec<u8> {
    let mut h = vec![0u8; 128];
    h[0] = 10;
    h[1] = 5;
    h[2] = encoding;
    h[3] = depth;
    h[4] = 1;
    h[8..10].copy_from_slice(&width.to_le_bytes());
    h[10..12].copy_from_slice(&(height - 1).to_le_bytes());
    h[65] = planes;
    h[66..68].copy_from_slice(&lane.to_le_bytes());
    h
}

fn decoder(file: Vec<u8>) -> PCXDecoder<String> {
    PCXDecoder::new(ByteSource::new(file, None))
}

fn decode(file: Vec<u8>, len: usize) -> (Vec<u8>, Result<(), Failure>) {
    let mut buf = vec![0xaau8; len];
    let r = decoder(file).read_image(&mut buf);
    (buf, r)
}

fn invalid(text: &str) -> Failure {
    CodecError::IoError(IoFailure::InvalidData(text.to_string()))
}

fn layout_error(file: Vec<u8>) -> Failure {
    let mut d = decoder(file);
    match d.peek_layout() {
        Ok(_) => panic!("the header was accepted"),
        Err(e) => {
            // After a failure there is nothing left.
            assert_eq!(
                d.peek_layout(),
                Err(CodecError::Parameter(ParameterErrorKind::NoMoreData))
            );
            e
        }
    }
}

#[test]
fn pcx_rgb_rows_have_planes() {
    let mut file = header(0, 8, 3, 2, 2, 2);
    file.extend_from_slice(&[1, 2, 11, 12, 21, 22, 3, 4, 13, 14, 23, 24]);
    let mut d = decoder(file);
    let layout = ImageLayout { color: ColorType::Rgb8, width: 2, height: 2 };
    assert_eq!(d.peek_layout(), Ok(layout));
    assert_eq!(d.peek_layout(), Ok(layout));
    assert_eq!(d.original_color_type(), Ok(ExtendedColorType::Rgb8));
    let mut buf = [0u8; 12];
    assert_eq!(d.read_image(&mut buf), Ok(()));
    assert_eq!(buf, [1, 11, 21, 2, 12, 22, 3, 13, 23, 4, 14, 24]);
    assert_eq!(
        d.read_image(&mut buf),
        Err(CodecError::Parameter(ParameterErrorKind::NoMoreData))
    );
    assert_eq!(
        d.original_color_type(),
        Err(CodecError::Parameter(ParameterErrorKind::NoMoreData))
    );
}

#[test]
fn pcx_compressed_rows_with_padding() {
    let mut file = header(1, 8, 3, 3, 1, 4);
    // Runs may go on from one plane to the next; a high byte takes a run of one.
    file.extend_from_slice(&[0xc4, 7, 0xc1, 0xff, 5, 6, 0, 1, 2, 3]);
    let (buf, r) = decode(file, 9);
    assert_eq!(r, Ok(()));
    assert_eq!(buf, vec![7, 0xff, 1, 7, 5, 2, 7, 6, 3]);
}

#[test]
fn pcx_palette_of_two_is_black_and_white() {
    let mut file = header(0, 1, 1, 10, 1, 2);
    file.extend_from_slice(&[0x81, 0x40]);
    let mut d = decoder(file.clone());
    assert_eq!(d.original_color_type(), Ok(ExtendedColorType::Unknown(1)));
    let (buf, r) = decode(file, 30);
    assert_eq!(r, Ok(()));
    let mut expected = vec![0u8; 30];
    for x in [0, 7, 9] {
        for c in 0..3 {
            expected[3 * x + c] = 255;
        }
    }
    assert_eq!(buf, expected);
}

#[test]
fn pcx_small_palettes_are_in_the_header() {
    let mut file = header(0, 2, 1, 4, 1, 1);
    for i in 0..12 {
        file[16 + i] = 100 + i as u8;
    }
    file.push(0b00_01_10_11);
    let (buf, r) = decode(file, 12);
    assert_eq!(r, Ok(()));
    assert_eq!(buf, (100u8..112).collect::<Vec<u8>>());
    // Four planes of one bit: the first plane has the lowest bit.
    let mut file = header(0, 1, 4, 2, 1, 1);
    for i in 0..48 {
        file[16 + i] = i as u8;
    }
    file.extend_from_slice(&[0x80, 0x40, 0x80, 0x40]);
    let (buf, r) = decode(file, 6);
    assert_eq!(r, Ok(()));
    assert_eq!(buf, vec![15, 16, 17, 30, 31, 32]);
}

#[test]
fn pcx_pixels_stand_in_their_places() {
    // Three rows of two pixels, and one byte of padding in each row.
    let mut file = header(0, 2, 1, 2, 3, 2);
    for i in 0..12 {
        file[16 + i] = 100 + i as u8;
    }
    file.extend_from_slice(&[0b00_01_00_00, 0, 0b10_11_00_00, 0, 0b11_00_00_00, 0]);
    let (buf, r) = decode(file, 18);
    assert_eq!(r, Ok(()));
    let indices = [[0usize, 1], [2, 3], [3, 0]];
    for y in 0..3 {
        for x in 0..2 {
            for c in 0..3 {
                assert_eq!(buf[3 * (2 * y + x) + c], (100 + 3 * indices[y][x] + c) as u8);
            }
        }
    }
}

/// An image of two pixels with a palette of 256 colours.
fn file_with_256_colors() -> Vec<u8> {
    let mut file = header(1, 8, 1, 2, 1, 2);
    file.extend_from_slice(&[3, 0xc1, 200]);
    file.push(12);
    for i in 0..256u32 {
        file.extend_from_slice(&[i as u8, (255 - i) as u8, 77]);
    }
    file
}

#[test]
fn pcx_large_palettes_end_the_file() {
    let (buf, r) = decode(file_with_256_colors(), 6);
    assert_eq!(r, Ok(()));
    assert_eq!(buf, vec![3, 252, 77, 200, 55, 77]);
    let mut d = decoder(file_with_256_colors());
    assert_eq!(d.original_color_type(), Ok(ExtendedColorType::Unknown(8)));
}

#[test]
fn pcx_missing_palettes() {
    let mut file = file_with_256_colors();
    let n = file.len();
    file[n - 769] = 13;
    let (buf, r) = decode(file.clone(), 6);
    assert_eq!(r, Err(invalid("no 256-color palette")));
    assert_eq!(buf, vec![0xaa; 6]);
    file.truncate(n - 1);
    assert_eq!(decode(file, 6).1, Err(invalid("no 256-color palette")));
}

#[test]
fn pcx_header_errors() {
    let good = header(0, 8, 3, 2, 2, 2);
    let changed = |i: usize, b: u8| {
        let mut h = good.clone();
        h[i] = b;
        layout_error(h)
    };
    assert_eq!(changed(0, 11), invalid("not a PCX file"));
    assert_eq!(changed(1, 1), invalid("PCX: unknown version"));
    assert_eq!(changed(1, 6), invalid("PCX: unknown version"));
    assert_eq!(changed(2, 2), invalid("PCX: unknown encoding"));
    assert_eq!(changed(4, 3), invalid("PCX: invalid dimensions"));
    assert_eq!(changed(3, 4), invalid("PCX: invalid or unsupported color format"));
    assert_eq!(changed(66, 1), invalid("PCX: invalid lane length"));
    for n in [0usize, 1, 2, 3, 11, 127] {
        assert_eq!(
            layout_error(good[..n].to_vec()),
            CodecError::IoError(IoFailure::UnexpectedEof)
        );
    }
    let mut d: PCXDecoder<String> =
        PCXDecoder::new(ByteSource::new(good[..50].to_vec(), Some("broken".to_string())));
    assert_eq!(
        d.peek_layout(),
        Err(CodecError::IoError(IoFailure::Reader("broken".to_string())))
    );
}

#[test]
fn pcx_images_that_end_too_early() {
    let eof = Err(CodecError::IoError(IoFailure::UnexpectedEof));
    let mut file = header(0, 8, 3, 1, 2, 1);
    file.extend_from_slice(&[1, 2, 3, 4]);
    let (buf, r) = decode(file, 6);
    assert_eq!(r, eof);
    assert_eq!(buf[..3], [1, 2, 3]);
    let (buf, r) = decode(header(0, 1, 1, 8, 1, 1), 24);
    assert_eq!(r, eof);
    assert_eq!(buf, vec![0xaa; 24]);
}

#[test]
fn pcx_reader_errors_behind_the_rows() {
    // The palette is at the end of the file, so the error is met.
    let mut d: PCXDecoder<String> = PCXDecoder::new(ByteSource::new(
        file_with_256_colors(),
        Some("broken".to_string()),
    ));
    let mut buf = [0u8; 6];
    assert_eq!(
        d.read_image(&mut buf),
        Err(CodecError::IoError(IoFailure::Reader("broken".to_string())))
    );
    // Without such a palette it is not.
    let mut file = header(0, 8, 3, 1, 1, 1);
    file.extend_from_slice(&[1, 2, 3]);
    let mut d: PCXDecoder<String> =
        PCXDecoder::new(ByteSource::new(file, Some("broken".to_string())));
    let mut buf = [0u8; 3];
    assert_eq!(d.read_image(&mut buf), Ok(()));
    assert_eq!(buf, [1, 2, 3]);
}

#[test]
fn pcx_palettes_are_expanded() {
    let mut buf = [0u8; 9];
    expand_palette(&[1, 0, 1], &[1, 2, 3, 4, 5, 6], &mut buf);
    assert_eq!(buf, [4, 5, 6, 1, 2, 3, 4, 5, 6]);
}

#[test]
fn pcx_problems() {
    assert_eq!(
        convert_pcx_decode_error(PcxProblem::Eof, Some("broken".to_string())),
        CodecError::IoError(IoFailure::Reader("broken".to_string()))
    );
    assert_eq!(
        convert_pcx_decode_error(PcxProblem::Invalid("odd".to_string()), None),
        invalid("odd")
    );
}
