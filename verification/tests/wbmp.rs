//! Tests of the WBMP encoder and decoder.

use image_extras::source::ByteSource;
use image_extras::types::{
    CodecError, ColorType, DecodingError, EncodingError, ExtendedColorType, ImageLayout, IoFailure,
    UnsupportedFeature,
};
use image_extras::wbmp::{convert_wbmp_error, WbmpDecoder, WbmpEncoder, WbmpProblem};

type Failure = CodecError<String>;

fn open(bytes: Vec<u8>) -> Result<WbmpDecoder<String>, Failure> {
    WbmpDecoder::new(ByteSource::new(bytes, None))
}

fn open_error(bytes: Vec<u8>) -> Failure {
    match open(bytes) {
        Ok(_) => panic!("the header was accepted"),
        Err(e) => e,
    }
}

fn encode(buf: &[u8], width: u32, height: u32, color: ExtendedColorType) -> Vec<u8> {
    let mut encoder = WbmpEncoder::new(Vec::new());
    let r: Result<(), Failure> = encoder.write_image(buf, width, height, color);
    assert_eq!(r, Ok(()));
    encoder.writer
}

#[test]
fn wbmp_encodes_rows_of_bits() {
    let mut image = [0u8; 20];
    image[0] = 255;
    image[9] = 127;
    image[10] = 126;
    image[18] = 200;
    assert_eq!(
        encode(&image, 10, 2, ExtendedColorType::L8),
        vec![0, 0, 10, 2, 0x80, 0x40, 0x00, 0x80]
    );
}

#[test]
fn wbmp_threshold_is_the_least_brightness_that_is_white() {
    let mut encoder = WbmpEncoder::new(vec![9]).with_threshold(200);
    assert_eq!(encoder.threshold, 200);
    let r: Result<(), Failure> =
        encoder.write_image(&[199, 200, 201, 0], 4, 1, ExtendedColorType::L8);
    assert_eq!(r, Ok(()));
    assert_eq!(encoder.writer, vec![9, 0, 0, 4, 1, 0x60]);
}

#[test]
fn wbmp_colour_is_averaged_with_alpha() {
    let image = [255, 255, 0, 0, 255, 252, 0, 0, 254, 254, 0, 0];
    assert_eq!(
        encode(&image, 3, 1, ExtendedColorType::Rgba8),
        vec![0, 0, 3, 1, 0xa0]
    );
}

#[test]
fn wbmp_round_trip() {
    let width = 13u32;
    let height = 200u32;
    let mut image = Vec::new();
    for p in 0..width * height {
        image.push((p * 37 % 256) as u8);
    }
    let file = encode(&image, width, height, ExtendedColorType::L8);
    let mut d = open(file).unwrap_or_else(|e| panic!("{:?}", e));
    assert_eq!(
        d.peek_layout(),
        Ok(ImageLayout { color: ColorType::L8, width, height })
    );
    assert_eq!(d.original_color_type(), Ok(ExtendedColorType::L1));
    let mut buf = vec![0u8; image.len()];
    assert_eq!(d.read_image(&mut buf), Ok(()));
    for (got, from) in buf.iter().zip(image.iter()) {
        assert_eq!(*got, if *from >= 127 { 255 } else { 0 });
    }
}

#[test]
fn wbmp_sizes_take_seven_bits_a_byte() {
    let file = encode(&[0; 300], 300, 1, ExtendedColorType::L8);
    assert_eq!(file[..5].to_vec(), vec![0, 0, 0x82, 0x2c, 1]);
    let mut d = open(vec![0, 0, 0x8f, 0xff, 0xff, 0xff, 0x7f, 0x81, 0x00])
        .unwrap_or_else(|e| panic!("{:?}", e));
    assert_eq!(
        d.peek_layout(),
        Ok(ImageLayout { color: ColorType::L8, width: u32::MAX, height: 128 })
    );
}

#[test]
fn wbmp_black_pixels_are_left_as_they_are() {
    let mut d = open(vec![0, 0, 4, 1, 0xa0]).unwrap_or_else(|e| panic!("{:?}", e));
    let mut buf = [1u8, 2, 3, 4];
    assert_eq!(d.read_image(&mut buf), Ok(()));
    assert_eq!(buf, [255, 2, 255, 4]);
}

#[test]
fn wbmp_header_errors() {
    assert_eq!(open_error(vec![]), CodecError::IoError(IoFailure::UnexpectedEof));
    assert_eq!(open_error(vec![0]), CodecError::IoError(IoFailure::UnexpectedEof));
    assert_eq!(open_error(vec![0, 0, 0x81]), CodecError::IoError(IoFailure::UnexpectedEof));
    assert_eq!(
        open_error(vec![3, 0, 1, 1]),
        CodecError::Unsupported(UnsupportedFeature::WbmpType(3))
    );
    assert_eq!(
        open_error(vec![0, 0x80, 1, 1]),
        CodecError::Unsupported(UnsupportedFeature::WbmpExtensionHeaders)
    );
    let broken: ByteSource<String> = ByteSource::new(vec![0, 0, 1], Some("broken".to_string()));
    match WbmpDecoder::new(broken) {
        Ok(_) => panic!("the header was accepted"),
        Err(e) => assert_eq!(e, CodecError::IoError(IoFailure::Reader("broken".to_string()))),
    }
}

#[test]
fn wbmp_images_that_end_too_early() {
    let mut d = open(vec![0, 0, 8, 2, 0xff]).unwrap_or_else(|e| panic!("{:?}", e));
    let mut buf = [1u8; 16];
    assert_eq!(
        d.read_image(&mut buf),
        Err(CodecError::IoError(IoFailure::UnexpectedEof))
    );
    assert_eq!(buf[..8], [255; 8]);
    assert_eq!(buf[8..], [1; 8]);
    let mut d = WbmpDecoder::new(ByteSource::new(
        vec![0, 0, 8, 1],
        Some("broken".to_string()),
    ))
    .unwrap_or_else(|e| panic!("{:?}", e));
    assert_eq!(
        d.read_image(&mut buf[..8]),
        Err(CodecError::IoError(IoFailure::Reader("broken".to_string())))
    );
}

#[test]
fn wbmp_encoding_errors() {
    let mut encoder = WbmpEncoder::new(Vec::new());
    let r: Result<(), Failure> = encoder.write_image(&[0; 3], 1, 1, ExtendedColorType::Rgb8);
    assert_eq!(r, Err(CodecError::Encoding(EncodingError::UnsupportedColorType)));
    assert_eq!(encoder.writer, Vec::<u8>::new());
    let r: Result<(), Failure> = encoder.write_image(&[0; 3], 2, 1, ExtendedColorType::L8);
    assert_eq!(r, Err(CodecError::Encoding(EncodingError::InvalidImageData)));
    assert_eq!(encoder.writer, vec![0, 0, 2, 1]);
}

#[test]
fn wbmp_problems() {
    let mut fault = Some("broken".to_string());
    assert_eq!(
        convert_wbmp_error(WbmpProblem::Usage("odd".to_string()), &mut fault),
        CodecError::Decoding(DecodingError::Wbmp("odd".to_string()))
    );
    assert_eq!(
        convert_wbmp_error(WbmpProblem::InvalidImageData, &mut fault),
        CodecError::Encoding(EncodingError::InvalidImageData)
    );
    assert_eq!(
        convert_wbmp_error(WbmpProblem::Io, &mut fault),
        CodecError::IoError(IoFailure::Reader("broken".to_string()))
    );
    assert_eq!(
        convert_wbmp_error(WbmpProblem::Io, &mut fault),
        CodecError::IoError(IoFailure::UnexpectedEof)
    );
}

#[test]
fn wbmp_messages() {
    assert_eq!(
        UnsupportedFeature::WbmpType(3).message(),
        "type 3 is not supported for wbmp images"
    );
    assert_eq!(
        UnsupportedFeature::WbmpExtensionHeaders.message(),
        "Extension headers are not supported for wbmp images"
    );
}
