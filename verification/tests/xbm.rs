//! Tests of the X BitMap decoder.

use image_extras::source::ByteSource;
use image_extras::types::{
    ColorType, DecodedMetadataHint, DecodingError, ExtendedColorType, CodecError, ImageLayout,
    IoFailure, ParameterErrorKind,
};
use image_extras::xbm::{
    read_xbm_header, TextLocation, TextReader, XbmDecodeError, XbmDecoder, XbmHeaderData, XbmPart,
    XbmStreamDecoder,
};

fn source(text: &str) -> ByteSource<String> {
    ByteSource::new(text.as_bytes().to_vec(), None)
}

fn decoder(text: &str) -> XbmDecoder<String> {
    XbmDecoder::new(source(text))
}

fn header_error(text: &str) -> XbmDecodeError {
    match XbmStreamDecoder::new(source(text)) {
        Ok(_) => panic!("the header was accepted"),
        Err((_, e)) => e,
    }
}

fn parse_error(part: XbmPart, byte: u64, line: u64, column: u64) -> XbmDecodeError {
    XbmDecodeError::Parse(part, TextLocation { byte, line, column })
}

const ONE: &str = "#define one_width 1\n\
#define one_height 1\n\
static unsigned char one_bits[] = {\n   0x00 };\n";

const HOTSPOT: &str = "#define hotspot_width 5\n\
#define hotspot_height 5\n\
#define hotspot_x_hot -1\n\
#define hotspot_y_hot 2\n\
static unsigned char hotspot_bits[] = {\n   0x04, 0x04, 0x1f, 0x04, 0x04 };\n";

const WIDE: &str = "#define w_width 10\n\
#define w_height 2\n\
static char w_bits[] = { 0x01, 0x02, 0xFE,0Xfd, };\n";

#[test]
fn image_without_hotspot() {
    let mut decoder = decoder(ONE);
    let layout = decoder.peek_layout().expect("Unable to read XBM file");

    assert_eq!((1, 1), (layout.width, layout.height));
    assert_eq!(
        None,
        decoder
            .hotspot()
            .expect("Hotspot evaluated at correct time")
    );
}

#[test]
fn image_with_hotspot() {
    let mut decoder = decoder(HOTSPOT);
    let layout = decoder.peek_layout().expect("Unable to read XBM file");

    assert_eq!((5, 5), (layout.width, layout.height));
    assert_eq!(
        Some((-1, 2)),
        decoder
            .hotspot()
            .expect("Hotspot evaluated at correct time")
    );
}

#[test]
fn xbm_pixels_of_a_cross() {
    let mut d = decoder(HOTSPOT);
    let mut buf = [7u8; 25];
    assert_eq!(d.read_image(&mut buf), Ok(()));
    let mut expected = [0xffu8; 25];
    for i in 0..5 {
        expected[5 * i + 2] = 0;
        expected[10 + i] = 0;
    }
    assert_eq!(buf, expected);
}

#[test]
fn xbm_rows_are_padded_to_bytes() {
    let mut d = decoder(WIDE);
    assert_eq!(
        d.peek_layout(),
        Ok(ImageLayout { color: ColorType::L8, width: 10, height: 2 })
    );
    // Asking again changes nothing.
    assert_eq!(
        d.peek_layout(),
        Ok(ImageLayout { color: ColorType::L8, width: 10, height: 2 })
    );
    let mut buf = [7u8; 20];
    assert_eq!(d.read_image(&mut buf), Ok(()));
    let mut expected = [0xffu8; 20];
    expected[0] = 0;
    expected[9] = 0;
    for i in 11..18 {
        expected[i] = 0;
    }
    expected[18] = 0;
    assert_eq!(buf, expected);
}

#[test]
fn xbm_stream_yields_bytes_and_then_checks_the_trailer() {
    let mut s = match XbmStreamDecoder::new(source(WIDE)) {
        Ok(s) => s,
        Err(_) => panic!("the header was refused"),
    };
    assert_eq!(s.header, XbmHeaderData { width: 10, height: 2, hotspot: None });
    assert_eq!(s.next_byte(), Ok(Some(0x01)));
    assert_eq!(s.next_byte(), Ok(Some(0x02)));
    assert_eq!(s.next_byte(), Ok(Some(0xfe)));
    assert_eq!(s.next_byte(), Ok(Some(0xfd)));
    assert_eq!(s.next_byte(), Ok(None));
}

#[test]
fn xbm_readers_yield_bytes_in_turn() {
    let mut r = TextReader::new(source("a\n\nbc"));
    let start = TextLocation { byte: 0, line: 1, column: 0 };
    assert_eq!(r.loc(), start);
    let steps = [(b'a', 1, 1), (b'\n', 2, 0), (b'\n', 3, 0), (b'b', 3, 1), (b'c', 3, 2)];
    for (k, (b, line, column)) in steps.into_iter().enumerate() {
        assert_eq!(r.peek(), Some(b));
        assert_eq!(r.next(), Some(b));
        assert_eq!(r.loc(), TextLocation { byte: k as u64 + 1, line, column });
    }
    let taken = r.inner.source.pos;
    for _ in 0..3 {
        assert_eq!(r.peek(), None);
        assert_eq!(r.next(), None);
        assert_eq!(r.loc(), TextLocation { byte: 5, line: 3, column: 2 });
        assert_eq!(r.inner.source.pos, taken);
    }
}

#[test]
fn xbm_header_gives_the_name() {
    let mut r = TextReader::new(source(HOTSPOT));
    match read_xbm_header(&mut r) {
        Ok((name, header)) => {
            assert_eq!(name, b"hotspot".to_vec());
            assert_eq!(header, XbmHeaderData { width: 5, height: 5, hotspot: Some((-1, 2)) });
        }
        Err(e) => panic!("{:?}", e),
    }
}

#[test]
fn xbm_names_may_be_empty_or_not_ascii() {
    let text = "#define _width 1\n#define _height 1\nstatic char _bits[] = {0x01};";
    let mut buf = [1u8];
    assert_eq!(decoder(text).read_image(&mut buf), Ok(()));
    assert_eq!(buf, [0]);
    let text = "#define \u{e9}_width 1\n#define \u{e9}_height 1\nstatic char \u{e9}_bits[] = {0x00};";
    let mut buf = [1u8];
    assert_eq!(decoder(text).read_image(&mut buf), Ok(()));
    assert_eq!(buf, [0xff]);
}

#[test]
fn xbm_gaps_may_be_blanks_and_tabs() {
    let text = "#define \t a_width\t 8 \t\n#define a_height  1\t\nstatic \t char  a_bits[]\t= {\n\t0x0f\n}\n;\n\n";
    let mut buf = [1u8; 8];
    assert_eq!(decoder(text).read_image(&mut buf), Ok(()));
    assert_eq!(buf, [0, 0, 0, 0, 0xff, 0xff, 0xff, 0xff]);
}

#[test]
fn xbm_header_errors_name_part_and_place() {
    assert_eq!(header_error(""), parse_error(XbmPart::Width, 0, 1, 0));
    assert_eq!(header_error("#defane"), parse_error(XbmPart::Width, 5, 1, 5));
    assert_eq!(header_error("#define a_widh 1\n"), parse_error(XbmPart::Width, 14, 1, 14));
    assert_eq!(
        header_error("#define a_width 1\n#define b_height 1\n"),
        parse_error(XbmPart::Height, 27, 2, 9)
    );
    assert_eq!(
        header_error("#define a_width 1\n#define a_height 1\nx"),
        parse_error(XbmPart::Array, 38, 3, 1)
    );
    assert_eq!(
        header_error("#define a_width 1\n#define a_height 1\n#define a_z_hot 1\n"),
        parse_error(XbmPart::HotspotX, 48, 3, 11)
    );
    assert_eq!(
        header_error("#define a_width 1\n#define a_height 1\n#define a_x_hot 1\n#define a_x_hot 1\n"),
        parse_error(XbmPart::HotspotY, 66, 4, 11)
    );
    assert_eq!(
        header_error("#define a_width 1\n#define a_height 1\nstatic int a_bits[] = {"),
        parse_error(XbmPart::Array, 45, 3, 8)
    );
}

#[test]
fn xbm_integers_have_no_leading_zeros() {
    assert_eq!(
        header_error("#define a_width 014\n"),
        XbmDecodeError::DecodeInteger(XbmPart::Width)
    );
    assert_eq!(
        header_error("#define a_width 4294967296\n"),
        XbmDecodeError::DecodeInteger(XbmPart::Width)
    );
    assert_eq!(
        header_error("#define a_width 1\n#define a_height +1\n"),
        XbmDecodeError::DecodeInteger(XbmPart::Height)
    );
    assert_eq!(
        header_error("#define a_width 1\n#define a_height 1\n#define a_x_hot 2147483648\n"),
        XbmDecodeError::DecodeInteger(XbmPart::HotspotX)
    );
    assert_eq!(
        header_error(
            "#define a_width 1\n#define a_height 1\n#define a_x_hot -2147483648\n#define a_y_hot -\n"
        ),
        XbmDecodeError::DecodeInteger(XbmPart::HotspotY)
    );
    // Twelve digits do not fit the space for an integer.
    assert_eq!(
        header_error("#define a_width 123456789012\n"),
        parse_error(XbmPart::Width, 27, 1, 27)
    );
}

#[test]
fn xbm_sizes_are_not_zero() {
    assert_eq!(header_error("#define a_width 0\n"), XbmDecodeError::ZeroWidth);
    assert_eq!(
        header_error("#define a_width 1\n#define a_height 0\n"),
        XbmDecodeError::ZeroHeight
    );
}

#[test]
fn xbm_identifiers_are_limited() {
    let name = "a".repeat(250);
    let text = format!(
        "#define {0}_width 1\n#define {0}_height 1\nstatic char {0}_bits[] = {{0x01}};",
        name
    );
    let mut buf = [1u8];
    assert_eq!(decoder(&text).read_image(&mut buf), Ok(()));
    let text = format!("#define {}_width 1\n", "a".repeat(251));
    assert_eq!(header_error(&text), parse_error(XbmPart::Width, 264, 1, 264));
}

#[test]
fn xbm_data_errors() {
    let head = "#define a_width 8\n#define a_height 2\nstatic char a_bits[] = {";
    let at = head.len() as u64;
    let read = |rest: &str| {
        let mut buf = [1u8; 16];
        decoder(&format!("{}{}", head, rest)).read_image(&mut buf)
    };
    let parse = |part: XbmPart, n: u64| {
        Err(CodecError::Decoding(DecodingError::Xbm(parse_error(
            part,
            at + n,
            3,
            at + n - 37,
        ))))
    };
    assert_eq!(read("0x01,0x02};"), Ok(()));
    assert_eq!(read("0x01 , 0x02 , } ; "), Ok(()));
    assert_eq!(read("1x01,0x02};"), parse(XbmPart::Data, 1));
    assert_eq!(read("0y01,0x02};"), parse(XbmPart::Data, 2));
    assert_eq!(read("0x0g,0x02};"), parse(XbmPart::Data, 4));
    assert_eq!(read("0x01;0x02};"), parse(XbmPart::Data, 5));
    assert_eq!(read("0x01,0x02;"), parse(XbmPart::ArrayEnd, 10));
    assert_eq!(read("0x01,0x02,0x03};"), parse(XbmPart::ArrayEnd, 11));
    assert_eq!(read("0x01,0x02}}"), parse(XbmPart::ArrayEnd, 11));
    assert_eq!(read("0x01,0x02};x"), parse(XbmPart::Trailing, 12));
    assert_eq!(read("0x01"), parse(XbmPart::Data, 4));
}

#[test]
fn xbm_buffers_have_to_fit() {
    let mut short = [1u8; 24];
    assert_eq!(
        decoder(HOTSPOT).read_image(&mut short),
        Err(CodecError::Parameter(ParameterErrorKind::DimensionMismatch))
    );
    let mut long = [1u8; 30];
    assert_eq!(
        decoder(HOTSPOT).read_image(&mut long),
        Err(CodecError::Parameter(ParameterErrorKind::DimensionMismatch))
    );
}

#[test]
fn xbm_images_are_read_once() {
    let mut d = decoder(ONE);
    assert_eq!(
        d.hotspot(),
        Err(CodecError::Parameter(ParameterErrorKind::NeedPeekLayout))
    );
    let mut buf = [1u8];
    assert_eq!(d.read_image(&mut buf), Ok(()));
    assert_eq!(
        d.read_image(&mut buf),
        Err(CodecError::Parameter(ParameterErrorKind::NoMoreData))
    );
    assert_eq!(
        d.peek_layout(),
        Err(CodecError::Parameter(ParameterErrorKind::NoMoreData))
    );
    assert_eq!(
        d.hotspot(),
        Err(CodecError::Parameter(ParameterErrorKind::NeedPeekLayout))
    );
}

#[test]
fn xbm_reader_errors_take_precedence() {
    let broken = || Some("broken".to_string());
    let failure = || Err(CodecError::IoError(IoFailure::Reader("broken".to_string())));
    let mut buf = [1u8];
    let mut d = XbmDecoder::new(ByteSource::new(ONE.as_bytes().to_vec(), broken()));
    assert!(d.peek_layout().is_ok());
    assert_eq!(d.read_image(&mut buf), failure());
    let mut d = XbmDecoder::new(ByteSource::new(ONE.as_bytes()[..30].to_vec(), broken()));
    assert_eq!(d.read_image(&mut buf), failure());
    // An error of the text that comes first is reported.
    let mut d = XbmDecoder::new(ByteSource::new(b"#undef   ".to_vec(), broken()));
    assert_eq!(
        d.read_image(&mut buf),
        Err(CodecError::Decoding(DecodingError::Xbm(parse_error(
            XbmPart::Width,
            2,
            1,
            2
        ))))
    );
}

#[test]
fn xbm_messages() {
    assert_eq!(
        parse_error(XbmPart::Array, 38, 3, 1).message(),
        "Failed to parse array definition, unexpected character or eof at byte=38,line=3:col=1"
    );
    assert_eq!(
        XbmDecodeError::DecodeInteger(XbmPart::HotspotY).message(),
        "Failed to parse integer for #define for hotspot y coordinate"
    );
    assert_eq!(
        XbmDecodeError::ZeroWidth.message(),
        "Invalid image width: should not be zero"
    );
    assert_eq!(
        XbmDecodeError::ZeroHeight.message(),
        "Invalid image height: should not be zero"
    );
    assert_eq!(XbmPart::Width.message(), "#define for image width");
    assert_eq!(XbmPart::Height.message(), "#define for image height");
    assert_eq!(XbmPart::HotspotX.message(), "#define for hotspot x coordinate");
    assert_eq!(XbmPart::Data.message(), "array content");
    assert_eq!(XbmPart::ArrayEnd.message(), "array end");
    assert_eq!(XbmPart::Trailing.message(), "end of file");
}

#[test]
fn xbm_has_one_bit_and_no_metadata() {
    let mut d = decoder(ONE);
    assert_eq!(d.original_color_type(), Ok(ExtendedColorType::L1));
    let a = d.attributes();
    assert_eq!(a.icc, DecodedMetadataHint::Absent);
    assert_eq!(a.exif, DecodedMetadataHint::Absent);
    assert_eq!(a.xmp, DecodedMetadataHint::Absent);
    assert_eq!(a.iptc, DecodedMetadataHint::Absent);
    assert!(!a.is_animated && !a.is_sequence);
}
