//! Tests of the SGI decoder.

use image_extras::sgi::rle::{
    apply_rle16_byte, apply_rle8_byte, process_rle_segment, RleMachine, Scanline,
    SgiRgbScanlineState,
};
use image_extras::sgi::scan::{process_data_segment, SgiRgbDecodeState};
use image_extras::sgi::{
    parse_header, SgiDecoder, SgiRgbDecodeError, SgiRgbHeaderInfo, HEADER_FULL_LENGTH,
};
use image_extras::source::ByteSource;
use image_extras::types::{
    ByteOrder, CodecError, ColorType, DecodedMetadataHint, DecodingError, ImageLayout, IoFailure,
    LimitErrorKind, Limits, ParameterErrorKind,
};

/// A file header.
fn header(storage: u8, bpc: u8, dimension: u16, x: u16, y: u16, z: u16) -> Vec<u8> {
    let mut h = vec![0u8; HEADER_FULL_LENGTH];
    h[0] = 0x01;
    h[1] = 0xda;
    h[2] = storage;
    h[3] = bpc;
    h[4..6].copy_from_slice(&dimension.to_be_bytes());
    h[6..8].copy_from_slice(&x.to_be_bytes());
    h[8..10].copy_from_slice(&y.to_be_bytes());
    h[10..12].copy_from_slice(&z.to_be_bytes());
    h[24..29].copy_from_slice(b"image");
    h
}

/// A run-length encoded file: for every row of every channel, the index of its scanline in the
/// file, and the scanlines.
fn rle_file(head: Vec<u8>, order: &[usize], scanlines: &[&[u8]]) -> Vec<u8> {
    let mut offsets = Vec::new();
    let mut at = HEADER_FULL_LENGTH + 8 * order.len();
    for s in scanlines {
        offsets.push(at as u32);
        at += s.len();
    }
    let mut file = head;
    for i in order {
        file.extend_from_slice(&offsets[*i].to_be_bytes());
    }
    for i in order {
        file.extend_from_slice(&(scanlines[*i].len() as u32).to_be_bytes());
    }
    for s in scanlines {
        file.extend_from_slice(s);
    }
    file
}

fn decoder(file: Vec<u8>) -> SgiDecoder<String> {
    SgiDecoder::new(ByteSource::new(file, None))
}

fn decode(file: Vec<u8>, len: usize) -> (Vec<u8>, Result<(), CodecError<String>>) {
    let mut buf = vec![0xaau8; len];
    let r = decoder(file).read_image(&mut buf);
    (buf, r)
}

fn sgi_error(e: SgiRgbDecodeError) -> Result<(), CodecError<String>> {
    Err(CodecError::Decoding(DecodingError::Sgi(e)))
}

#[test]
fn sgi_header_gives_size_colour_and_name() {
    let (info, name) = parse_header(&header(1, 2, 3, 7, 5, 4)).unwrap();
    assert_eq!(
        info,
        SgiRgbHeaderInfo { xsize: 7, ysize: 5, color_type: ColorType::Rgba16, is_rle: true }
    );
    assert_eq!(name, b"image".to_vec());
    // Sizes that the number of dimensions leaves out are not looked at.
    let (info, _) = parse_header(&header(0, 1, 1, 7, 0, 9)).unwrap();
    assert_eq!(
        info,
        SgiRgbHeaderInfo { xsize: 7, ysize: 1, color_type: ColorType::L8, is_rle: false }
    );
    let (info, _) = parse_header(&header(0, 2, 2, 7, 3, 9)).unwrap();
    assert_eq!(
        info,
        SgiRgbHeaderInfo { xsize: 7, ysize: 3, color_type: ColorType::L16, is_rle: false }
    );
}

#[test]
fn sgi_colour_types() {
    let types = [
        (1, 1, ColorType::L8),
        (1, 2, ColorType::La8),
        (1, 3, ColorType::Rgb8),
        (1, 4, ColorType::Rgba8),
        (2, 1, ColorType::L16),
        (2, 2, ColorType::La16),
        (2, 3, ColorType::Rgb16),
        (2, 4, ColorType::Rgba16),
    ];
    for (bpc, z, color) in types {
        let (info, _) = parse_header(&header(0, bpc, 3, 1, 1, z)).unwrap();
        assert_eq!(info.color_type, color);
    }
}

#[test]
fn sgi_header_errors() {
    let mut h = header(0, 1, 3, 1, 1, 1);
    h[1] = 0xdb;
    assert_eq!(parse_header(&h), Err(SgiRgbDecodeError::BadMagic));
    assert_eq!(parse_header(&header(2, 1, 3, 1, 1, 1)), Err(SgiRgbDecodeError::HeaderError));
    assert_eq!(parse_header(&header(0, 0, 3, 1, 1, 1)), Err(SgiRgbDecodeError::HeaderError));
    assert_eq!(parse_header(&header(0, 3, 3, 1, 1, 1)), Err(SgiRgbDecodeError::HeaderError));
    assert_eq!(parse_header(&header(0, 1, 0, 1, 1, 1)), Err(SgiRgbDecodeError::HeaderError));
    assert_eq!(parse_header(&header(0, 1, 4, 1, 1, 1)), Err(SgiRgbDecodeError::HeaderError));
    assert_eq!(
        parse_header(&header(0, 1, 3, 2, 0, 3)),
        Err(SgiRgbDecodeError::ZeroSize(2, 0, 3))
    );
    assert_eq!(
        parse_header(&header(0, 1, 2, 0, 2, 3)),
        Err(SgiRgbDecodeError::ZeroSize(0, 2, 1))
    );
    assert_eq!(
        parse_header(&header(0, 1, 3, 1, 1, 5)),
        Err(SgiRgbDecodeError::UnexpectedZSize(5))
    );
    let mut h = header(0, 1, 3, 1, 1, 1);
    h[107] = 3;
    assert_eq!(parse_header(&h), Err(SgiRgbDecodeError::UnexpectedColormap(3)));
    let mut h = header(0, 1, 3, 1, 1, 1);
    h[26] = 0xe4;
    assert_eq!(parse_header(&h), Err(SgiRgbDecodeError::InvalidName));
    let mut h = header(0, 1, 3, 1, 1, 1);
    for b in &mut h[24..104] {
        *b = b'x';
    }
    assert_eq!(parse_header(&h), Err(SgiRgbDecodeError::InvalidName));
    // What follows the end of the name is not looked at.
    let mut h = header(0, 1, 3, 1, 1, 1);
    h[40] = 0xe4;
    assert!(parse_header(&h).is_ok());
}

#[test]
fn sgi_layout_can_be_asked_for_again() {
    let mut d = decoder(header(0, 1, 3, 4, 2, 3));
    let layout = ImageLayout { color: ColorType::Rgb8, width: 4, height: 2 };
    assert_eq!(d.peek_layout(), Ok(layout));
    assert_eq!(d.peek_layout(), Ok(layout));
    assert_eq!(layout.total_bytes(), 24);
    let a = d.attributes();
    assert_eq!(a.icc, DecodedMetadataHint::Absent);
    assert_eq!(a.exif, DecodedMetadataHint::Absent);
}

#[test]
fn sgi_short_files() {
    let eof = Err(CodecError::IoError(IoFailure::UnexpectedEof));
    assert_eq!(decode(header(0, 1, 3, 1, 1, 1)[..511].to_vec(), 0).1, eof);
    let mut file = header(0, 1, 3, 2, 1, 1);
    file.push(7);
    let (buf, r) = decode(file, 2);
    assert_eq!(r, eof);
    assert_eq!(buf, vec![7, 0xaa]);
    let mut d: SgiDecoder<String> =
        SgiDecoder::new(ByteSource::new(vec![1, 0xda], Some("broken".to_string())));
    assert_eq!(
        d.peek_layout(),
        Err(CodecError::IoError(IoFailure::Reader("broken".to_string())))
    );
}

#[test]
fn sgi_packed_rows_come_bottom_up_and_plane_by_plane() {
    let mut file = header(0, 1, 3, 2, 2, 3);
    file.extend_from_slice(&[1, 2, 3, 4, 11, 12, 13, 14, 21, 22, 23, 24]);
    let (buf, r) = decode(file, 12);
    assert_eq!(r, Ok(()));
    assert_eq!(buf, vec![3, 13, 23, 4, 14, 24, 1, 11, 21, 2, 12, 22]);
}

#[test]
fn sgi_packed_deep_samples_have_the_order_of_the_machine() {
    let mut file = header(0, 2, 3, 2, 1, 2);
    file.extend_from_slice(&[0x12, 0x34, 0x56, 0x78, 0x9a, 0xbc, 0xde, 0xf0]);
    let (buf, r) = decode(file.clone(), 8);
    assert_eq!(r, Ok(()));
    let mut expected = Vec::new();
    for v in [0x1234u16, 0x9abc, 0x5678, 0xdef0] {
        expected.extend_from_slice(&v.to_ne_bytes());
    }
    assert_eq!(buf, expected);
    let mut buf = vec![0u8; 8];
    assert_eq!(decoder(file.clone()).read_frame(&mut buf, ByteOrder::Big, None), Ok(()));
    assert_eq!(buf, vec![0x12, 0x34, 0x9a, 0xbc, 0x56, 0x78, 0xde, 0xf0]);
    assert_eq!(decoder(file).read_frame(&mut buf, ByteOrder::Little, None), Ok(()));
    assert_eq!(buf, vec![0x34, 0x12, 0xbc, 0x9a, 0x78, 0x56, 0xf0, 0xde]);
}

#[test]
fn sgi_packed_images_are_read_once() {
    let mut file = header(0, 1, 2, 1, 1, 1);
    file.push(9);
    let mut d = decoder(file);
    let mut buf = [0u8];
    assert_eq!(d.read_image(&mut buf), Ok(()));
    assert_eq!(buf, [9]);
    let done: CodecError<String> = CodecError::Parameter(ParameterErrorKind::NoMoreData);
    assert_eq!(d.read_image(&mut buf), Err(done));
    assert_eq!(
        d.peek_layout(),
        Err(CodecError::Parameter(ParameterErrorKind::NoMoreData))
    );
}

#[test]
fn sgi_rle_round_trip_with_rows_out_of_order() {
    // Two rows of five pixels in two channels.
    let scanlines: [&[u8]; 4] = [
        &[0x85, 1, 2, 3, 4, 5, 0],
        &[5, 9, 0],
        &[2, 7, 0x83, 8, 6, 5, 0],
        &[0x82, 1, 3, 3, 4, 0x80],
    ];
    let expected = vec![
        // Top row: scanlines 0 (first channel) and 1 (second channel).
        1, 9, 2, 9, 3, 9, 4, 9, 5, 9, //
        // Bottom row: scanlines 2 and 3.
        7, 1, 7, 3, 8, 4, 6, 4, 5, 4,
    ];
    let file = rle_file(header(1, 1, 3, 5, 2, 2), &[2, 0, 3, 1], &scanlines);
    let (buf, r) = decode(file.clone(), 20);
    assert_eq!(r, Ok(()));
    assert_eq!(buf, expected);
    // How many bytes the reader shows at a time does not matter.
    for window in [1usize, 2, 3, 5, 7, 100] {
        let mut d: SgiDecoder<String> =
            SgiDecoder::new(ByteSource::new(file.clone(), None).with_window(window));
        let mut buf = vec![0u8; 20];
        assert_eq!(d.read_image(&mut buf), Ok(()));
        assert_eq!(buf, expected);
        // The image stays where it is, so its layout is still known.
        assert!(d.peek_layout().is_ok());
    }
}

#[test]
fn sgi_rle_rows_may_share_bytes() {
    let file = rle_file(header(1, 1, 2, 3, 4, 1), &[0, 0, 0, 0], &[&[3, 5, 0]]);
    for window in [1usize, 2, 1000] {
        let mut d: SgiDecoder<String> =
            SgiDecoder::new(ByteSource::new(file.clone(), None).with_window(window));
        let mut buf = vec![0u8; 12];
        assert_eq!(d.read_image(&mut buf), Ok(()));
        assert_eq!(buf, vec![5u8; 12]);
    }
}

#[test]
fn sgi_rle_deep_samples() {
    let scanlines: [&[u8]; 1] =
        [&[0, 0x82, 0x12, 0x34, 0x56, 0x78, 0xff, 0x02, 0x9a, 0xbc, 0, 0]];
    let file = rle_file(header(1, 2, 1, 4, 0, 0), &[0], &scanlines);
    let mut expected = Vec::new();
    for v in [0x1234u16, 0x5678, 0x9abc, 0x9abc] {
        expected.extend_from_slice(&v.to_ne_bytes());
    }
    for window in [1usize, 2, 3, 1000] {
        let mut d: SgiDecoder<String> =
            SgiDecoder::new(ByteSource::new(file.clone(), None).with_window(window));
        let mut buf = vec![0u8; 8];
        assert_eq!(d.read_image(&mut buf), Ok(()));
        assert_eq!(buf, expected);
    }
}

#[test]
fn sgi_rle_scanline_errors() {
    let read = |s: &[u8]| decode(rle_file(header(1, 1, 1, 3, 0, 0), &[0], &[s]), 3).1;
    assert_eq!(read(&[3, 5, 0]), Ok(()));
    assert_eq!(read(&[4, 5, 0]), sgi_error(SgiRgbDecodeError::ScanlineOverflow));
    assert_eq!(
        read(&[0x84, 1, 2, 3, 4, 0]),
        sgi_error(SgiRgbDecodeError::ScanlineOverflow)
    );
    assert_eq!(read(&[2, 5, 0]), sgi_error(SgiRgbDecodeError::ScanlineUnderflow));
    assert_eq!(read(&[3, 5, 0, 0]), sgi_error(SgiRgbDecodeError::ScanlineTooShort));
    assert_eq!(read(&[3, 5]), sgi_error(SgiRgbDecodeError::ScanlineTooLong));
}

#[test]
fn sgi_rle_table_errors() {
    // A length of zero.
    let file = rle_file(header(1, 1, 1, 3, 0, 0), &[0], &[&[]]);
    assert_eq!(decode(file, 3).1, sgi_error(SgiRgbDecodeError::RLERowInvalid(520, 0)));
    // An offset within the tables.
    let mut file = rle_file(header(1, 1, 1, 3, 0, 0), &[0], &[&[3, 5, 0]]);
    file[515] = 7;
    assert_eq!(decode(file, 3).1, sgi_error(SgiRgbDecodeError::RLERowInvalid(519 - 512 + 512, 3)));
    // Tables that end too early.
    let file = rle_file(header(1, 1, 1, 3, 0, 0), &[0], &[&[3, 5, 0]]);
    let eof = Err(CodecError::IoError(IoFailure::UnexpectedEof));
    assert_eq!(decode(file[..515].to_vec(), 3).1, eof);
    assert_eq!(decode(file[..519].to_vec(), 3).1, eof);
}

#[test]
fn sgi_rle_files_that_end_too_early() {
    let file = rle_file(header(1, 1, 1, 3, 0, 0), &[0], &[&[3, 5, 0]]);
    let (buf, r) = decode(file[..522].to_vec(), 3);
    assert_eq!(r, sgi_error(SgiRgbDecodeError::EarlyEOF));
    assert_eq!(buf, vec![5, 5, 5]);
    let mut d: SgiDecoder<String> = SgiDecoder::new(ByteSource::new(
        file[..522].to_vec(),
        Some("broken".to_string()),
    ));
    let mut buf = vec![0u8; 3];
    assert_eq!(
        d.read_image(&mut buf),
        Err(CodecError::IoError(IoFailure::Reader("broken".to_string())))
    );
    // An error behind the last scanline is not met.
    let mut d: SgiDecoder<String> =
        SgiDecoder::new(ByteSource::new(file, Some("broken".to_string())));
    assert_eq!(d.read_image(&mut buf), Ok(()));
}

#[test]
fn sgi_limits() {
    let mut file = header(0, 1, 2, 4, 2, 1);
    file.extend_from_slice(&[0; 8]);
    let read = |limits: Limits| {
        let mut d = decoder(file.clone());
        assert_eq!(d.set_limits(limits), Ok(()));
        let mut buf = vec![0u8; 8];
        d.read_image(&mut buf)
    };
    let none = Limits::no_limits();
    assert_eq!(read(none), Ok(()));
    assert_eq!(read(Limits { max_image_width: Some(4), max_image_height: Some(2), ..none }), Ok(()));
    assert_eq!(
        read(Limits { max_image_width: Some(3), ..none }),
        Err(CodecError::Limits(LimitErrorKind::DimensionError))
    );
    assert_eq!(
        read(Limits { max_image_height: Some(1), ..none }),
        Err(CodecError::Limits(LimitErrorKind::DimensionError))
    );
    assert_eq!(read(Limits { max_alloc: Some(8), ..none }), Ok(()));
    assert_eq!(
        read(Limits { max_alloc: Some(7), ..none }),
        Err(CodecError::Limits(LimitErrorKind::InsufficientMemory))
    );
}

#[test]
fn sgi_limits_count_the_table() {
    let file = rle_file(header(1, 1, 1, 3, 0, 0), &[0], &[&[3, 5, 0]]);
    let row = std::mem::size_of::<SgiRgbScanlineState>() as u64;
    let read = |max: u64| {
        let mut d = decoder(file.clone());
        assert_eq!(
            d.set_limits(Limits { max_alloc: Some(max), ..Limits::no_limits() }),
            Ok(())
        );
        let mut buf = vec![0u8; 3];
        d.read_image(&mut buf)
    };
    assert_eq!(read(3 + row), Ok(()));
    assert_eq!(
        read(3 + row - 1),
        Err(CodecError::Limits(LimitErrorKind::InsufficientMemory))
    );
    // Without memory for the table, nothing is read.
    let mut buf = vec![1u8; 3];
    assert_eq!(
        decoder(file).read_frame(&mut buf, ByteOrder::Big, None),
        Err(CodecError::Limits(LimitErrorKind::InsufficientMemory))
    );
    assert_eq!(buf, vec![1u8; 3]);
}

fn fresh_row(deep: bool) -> SgiRgbScanlineState {
    SgiRgbScanlineState {
        line: Scanline { offset: 600, length: 3, row_id: 0, plane: 0 },
        prec_active_line: u32::MAX,
        machine: RleMachine {
            position: 0,
            counter: 0,
            data_char_hi: 0,
            at_counter: true,
            high_byte: deep,
        },
    }
}

#[test]
fn sgi_rle_machines_take_bytes() {
    let mut row = fresh_row(false);
    let mut buf = [0u8; 6];
    assert_eq!(apply_rle8_byte(&mut row, &mut buf, 0x82, 3, 2), Ok(false));
    assert_eq!(apply_rle8_byte(&mut row, &mut buf, 5, 3, 2), Ok(false));
    assert_eq!(row.machine.counter, 0x81);
    assert_eq!(apply_rle8_byte(&mut row, &mut buf, 6, 3, 2), Ok(false));
    assert_eq!(apply_rle8_byte(&mut row, &mut buf, 1, 3, 2), Ok(false));
    assert_eq!(apply_rle8_byte(&mut row, &mut buf, 7, 3, 2), Ok(false));
    assert_eq!(row.machine.position, 3);
    assert_eq!(buf, [5, 0, 6, 0, 7, 0]);
    assert_eq!(apply_rle8_byte(&mut row, &mut buf, 0, 3, 2), Ok(true));

    let mut row = fresh_row(true);
    let mut buf = [0u8; 4];
    assert_eq!(apply_rle16_byte(&mut row, &mut buf, 0, 2, 1, ByteOrder::Big), Ok(false));
    assert_eq!(apply_rle16_byte(&mut row, &mut buf, 2, 2, 1, ByteOrder::Big), Ok(false));
    assert_eq!(apply_rle16_byte(&mut row, &mut buf, 0x12, 2, 1, ByteOrder::Big), Ok(false));
    assert_eq!(apply_rle16_byte(&mut row, &mut buf, 0x34, 2, 1, ByteOrder::Big), Ok(false));
    assert_eq!(buf, [0x12, 0x34, 0x12, 0x34]);
    let mut row = fresh_row(false);
    assert_eq!(apply_rle8_byte(&mut row, &mut buf, 0, 2, 1), Err(false));
    let mut row = fresh_row(false);
    assert_eq!(apply_rle8_byte(&mut row, &mut buf, 3, 2, 1), Ok(false));
    assert_eq!(apply_rle8_byte(&mut row, &mut buf, 9, 2, 1), Err(true));
}

#[test]
fn sgi_rle_segments() {
    let mut buf = [0u8; 3];
    let mut row = fresh_row(false);
    assert_eq!(
        process_rle_segment::<false>(&mut buf, &mut row, 3, 1, &[2, 9], false, ByteOrder::Big),
        Ok(())
    );
    assert_eq!(
        process_rle_segment::<false>(&mut buf, &mut row, 3, 1, &[1, 8, 0], true, ByteOrder::Big),
        Ok(())
    );
    assert_eq!(buf, [9, 9, 8]);
    let mut row = fresh_row(false);
    assert_eq!(
        process_rle_segment::<false>(&mut buf, &mut row, 3, 1, &[3, 9, 0], false, ByteOrder::Big),
        Err(SgiRgbDecodeError::ScanlineTooShort)
    );
}

/// Three rows of two pixels, whose scanlines begin behind the header, and what follows it.
fn three_rows() -> (SgiRgbHeaderInfo, Vec<SgiRgbScanlineState>, Vec<u8>) {
    let info =
        SgiRgbHeaderInfo { xsize: 2, ysize: 3, color_type: ColorType::L8, is_rle: true };
    let row = |offset: u32, length: u32, row_id: u16| SgiRgbScanlineState {
        line: Scanline { offset, length, row_id, plane: 0 },
        ..fresh_row(false)
    };
    // The first two rows share their bytes.
    let rows = vec![row(514, 3, 0), row(514, 3, 2), row(518, 4, 1)];
    (info, rows, vec![99, 99, 2, 7, 0, 99, 0x82, 5, 6, 0, 99])
}

fn at_the_start() -> SgiRgbDecodeState {
    SgiRgbDecodeState { pos: 512, max_active_row: None, cursor: 0 }
}

#[test]
fn sgi_segments_may_be_cut_anywhere() {
    let (info, rows, bytes) = three_rows();
    let mut whole_rows = rows.clone();
    let mut whole = [1u8; 6];
    let r = process_data_segment::<false>(
        &mut whole,
        info,
        at_the_start(),
        &mut whole_rows,
        &bytes,
        ByteOrder::Big,
    );
    assert_eq!(whole, [7, 7, 5, 6, 7, 7]);
    assert_eq!(
        r,
        Ok((SgiRgbDecodeState { pos: 523, max_active_row: None, cursor: 3 }, true))
    );
    for cut in 0..=bytes.len() {
        let mut cut_rows = rows.clone();
        let mut buf = [1u8; 6];
        let (state, done) = process_data_segment::<false>(
            &mut buf,
            info,
            at_the_start(),
            &mut cut_rows,
            &bytes[..cut],
            ByteOrder::Big,
        )
        .unwrap();
        assert_eq!(state.pos, 512 + cut as u64);
        // The last scanline ends with the tenth byte.
        assert_eq!(done, cut >= 10);
        if done {
            assert_eq!(buf, whole);
            continue;
        }
        let second = process_data_segment::<false>(
            &mut buf,
            info,
            state,
            &mut cut_rows,
            &bytes[cut..],
            ByteOrder::Big,
        );
        assert_eq!(second, r);
        assert_eq!(buf, whole);
        assert_eq!(cut_rows, whole_rows);
    }
}

#[test]
fn sgi_segments_leave_other_pixels() {
    let (info, rows, bytes) = three_rows();
    // The segment ends before the scanline of the row in the middle.
    let mut table = rows.clone();
    let mut buf = [1u8; 6];
    let r = process_data_segment::<false>(
        &mut buf,
        info,
        at_the_start(),
        &mut table,
        &bytes[..6],
        ByteOrder::Big,
    );
    assert!(matches!(r, Ok((_, false))));
    assert_eq!(buf, [7, 7, 1, 1, 7, 7]);
    assert_eq!(table[2], rows[2]);
    // A scanline that fails leaves the pixels of those that the segment does not meet.
    let mut table = rows.clone();
    let mut buf = [1u8; 6];
    let r = process_data_segment::<false>(
        &mut buf,
        info,
        at_the_start(),
        &mut table,
        &[99, 99, 3, 7, 0, 99],
        ByteOrder::Big,
    );
    assert_eq!(r, Err(SgiRgbDecodeError::ScanlineOverflow));
    assert_eq!(buf[2..4], [1, 1]);
}

#[test]
fn sgi_messages() {
    assert_eq!(
        SgiRgbDecodeError::BadMagic.message(),
        "Incorrect magic bytes, not an SGI image file"
    );
    assert_eq!(SgiRgbDecodeError::HeaderError.message(), "Error parsing header");
    assert_eq!(
        SgiRgbDecodeError::UnexpectedColormap(3).message(),
        "Unexpected color map value (3)"
    );
    assert_eq!(
        SgiRgbDecodeError::UnexpectedZSize(5).message(),
        "Unexpected Z dimension is >= 5 (5)"
    );
    assert_eq!(
        SgiRgbDecodeError::ZeroSize(2, 0, 13).message(),
        "Image has zero size: x*y*z=2*0*13=0"
    );
    assert_eq!(
        SgiRgbDecodeError::RLERowInvalid(520, 0).message(),
        "Bad RLE row info (offset=520, length=0); empty or not in image data region"
    );
    assert_eq!(
        SgiRgbDecodeError::InvalidName.message(),
        "Invalid name field (not null terminated or not ASCII)"
    );
    assert_eq!(
        SgiRgbDecodeError::ScanlineOverflow.message(),
        "An RLE-encoded scanline contained more data than the image width"
    );
    assert_eq!(
        SgiRgbDecodeError::ScanlineUnderflow.message(),
        "An RLE-encoded scanline contained less data than the image width"
    );
    assert_eq!(
        SgiRgbDecodeError::ScanlineTooShort.message(),
        "An RLE-encoded scanline stopped (reached a zero counter) before its stated length"
    );
    assert_eq!(
        SgiRgbDecodeError::ScanlineTooLong.message(),
        "An RLE-encoded scanline did not stop at its stated length (missing trailing zero counter)."
    );
    assert_eq!(
        SgiRgbDecodeError::EarlyEOF.message(),
        "File ended before all scanlines were read."
    );
}
