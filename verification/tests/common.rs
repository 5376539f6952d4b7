//! Tests of byte sources, layouts, limits and the table of formats.

use image_extras::registry::{register, Format, Signature};
use image_extras::source::{be16_value, be32_value, ByteSource};
use image_extras::types::{
    ColorType, ImageLayout, IoFailure, LimitErrorKind, Limits, ParameterErrorKind,
};

fn source(bytes: &[u8]) -> ByteSource<String> {
    ByteSource::new(bytes.to_vec(), None)
}

#[test]
fn sources_yield_integers() {
    let mut s = source(&[1, 2, 3, 4, 5, 6, 7, 8]);
    assert_eq!(s.read_u8(), Ok(1));
    assert_eq!(s.read_be16(), Ok(0x0203));
    assert_eq!(s.read_be32(), Ok(0x0405_0607));
    assert_eq!(s.next(), Some(8));
    assert_eq!(s.next(), None);
    assert_eq!(s.read_u8(), Err(IoFailure::UnexpectedEof));
    assert_eq!(be16_value(0xab, 0xcd), 0xabcd);
    assert_eq!(be32_value(0xab, 0xcd, 0xef, 0x12), 0xabcd_ef12);
}

#[test]
fn sources_end() {
    let mut s = source(&[1, 2, 3]);
    assert_eq!(s.read_exact(2), Ok(vec![1, 2]));
    assert_eq!(s.read_exact(2), Err(IoFailure::UnexpectedEof));
    assert_eq!(s.read_exact(0), Ok(vec![]));
    assert_eq!(source(&[1]).read_be16(), Err(IoFailure::UnexpectedEof));
    assert_eq!(source(&[1, 2, 3]).read_be32(), Err(IoFailure::UnexpectedEof));
    // An error is met once.
    let mut s: ByteSource<String> = ByteSource::new(vec![1], Some("broken".to_string()));
    assert_eq!(s.read_exact(2), Err(IoFailure::Reader("broken".to_string())));
    assert_eq!(s.read_exact(2), Err(IoFailure::UnexpectedEof));
}

#[test]
fn sources_show_windows() {
    let mut s = source(&[1, 2, 3, 4, 5]).with_window(2);
    assert_eq!(s.fill_buf(), Ok(2));
    s.consume(1);
    let mut buf = [0u8; 4];
    assert_eq!(s.read(&mut buf), Ok(2));
    assert_eq!(buf, [2, 3, 0, 0]);
    assert_eq!(s.read(&mut buf[..1]), Ok(1));
    assert_eq!(buf, [4, 3, 0, 0]);
    assert_eq!(s.fill_buf(), Ok(1));
    s.consume(1);
    assert_eq!(s.fill_buf(), Ok(0));
    assert_eq!(s.read(&mut buf), Ok(0));
    let mut s: ByteSource<String> = ByteSource::new(vec![], Some("broken".to_string()));
    assert_eq!(s.fill_buf(), Err(IoFailure::Reader("broken".to_string())));
    assert_eq!(s.fill_buf(), Ok(0));
}

#[test]
fn layouts_have_sizes() {
    let layout = ImageLayout { color: ColorType::Rgb16, width: 3, height: 5 };
    assert_eq!(layout.total_bytes(), 90);
    assert!(layout.fits(90));
    assert!(!layout.fits(89));
    assert_eq!(layout.dimensions(), (3, 5));
    let huge = ImageLayout { color: ColorType::Rgba16, width: u32::MAX, height: u32::MAX };
    assert_eq!(huge.total_bytes(), u64::MAX);
    assert!(!huge.fits(usize::MAX));
    assert_eq!(ColorType::La16.channel_count(), 2);
    assert_eq!(ColorType::La16.bytes_per_pixel(), 4);
}

#[test]
fn limits_are_used_up() {
    let mut l = Limits { max_alloc: Some(10), ..Limits::no_limits() };
    assert_eq!(l.reserve(4), Ok(()));
    assert_eq!(l.max_alloc, Some(6));
    assert_eq!(l.reserve(7), Err(LimitErrorKind::InsufficientMemory));
    assert_eq!(l.reserve(6), Ok(()));
    assert_eq!(Limits::no_limits().reserve(u64::MAX), Ok(()));
    assert_eq!(l.check_dimensions(u32::MAX, u32::MAX), Ok(()));
}

#[test]
fn parameter_messages() {
    assert_eq!(
        ParameterErrorKind::DimensionMismatch.message(),
        "The Image's dimensions are either too small or too large"
    );
    assert_eq!(
        ParameterErrorKind::NoMoreData.message(),
        "The end of the image has been reached"
    );
    assert_eq!(ParameterErrorKind::Generic("odd".to_string()).message(), "odd");
}

#[test]
fn all_formats_are_registered_once() {
    let all = register(false);
    let names: Vec<(&str, Format)> = all.iter().map(|r| (r.extension, r.format)).collect();
    assert_eq!(
        names,
        vec![
            ("ora", Format::OpenRaster),
            ("pcx", Format::Pcx),
            ("psd", Format::Psd),
            ("bw", Format::Sgi),
            ("rgb", Format::Sgi),
            ("rgba", Format::Sgi),
            ("iris", Format::Sgi),
            ("sgi", Format::Sgi),
            ("wbmp", Format::Wbmp),
            ("xbm", Format::Xbm),
            ("bm", Format::Xbm),
        ]
    );
    assert!(register(true).is_empty());
}

#[test]
fn signatures_come_with_extensions() {
    let mut found = Vec::new();
    for r in register(false) {
        let name = r.extension;
        for s in r.detected_by(true) {
            found.push((name, s));
        }
    }
    let plain = |bytes: [u8; 4]| Signature { bytes: bytes.to_vec(), mask: None };
    assert_eq!(
        found,
        vec![
            ("pcx", Signature { bytes: vec![0x0a, 0], mask: Some(vec![0xff, 0xf8]) }),
            ("sgi", plain([1, 0xda, 0, 1])),
            ("sgi", plain([1, 0xda, 1, 1])),
            ("sgi", plain([1, 0xda, 0, 2])),
            ("sgi", plain([1, 0xda, 1, 2])),
        ]
    );
    // An extension that was not accepted brings no signatures.
    for r in register(false) {
        assert!(r.detected_by(false).is_empty());
    }
}

/// Whether a file starts with a signature of the format.
fn detected(file: &[u8], format: Format) -> bool {
    let mut found = false;
    for r in register(false) {
        if r.format != format {
            continue;
        }
        for s in r.detected_by(true) {
            let same = s.bytes.iter().enumerate().all(|(i, b)| {
                let bits = match &s.mask {
                    Some(mask) => mask[i],
                    None => 0xff,
                };
                file[i] & bits == *b
            });
            found = found || same;
        }
    }
    found
}

#[test]
fn files_start_with_their_signatures() {
    for storage in 0..=3u8 {
        for bpc in 0..=3u8 {
            let mut header = vec![0u8; 512];
            header[..8].copy_from_slice(&[1, 0xda, storage, bpc, 0, 1, 0, 1]);
            let readable = image_extras::sgi::parse_header(&header).is_ok();
            assert_eq!(readable, storage < 2 && (bpc == 1 || bpc == 2));
            assert_eq!(detected(&header, Format::Sgi), readable);
        }
    }
    for version in 0..=9u8 {
        let mut header = vec![0u8; 128];
        header[..4].copy_from_slice(&[10, version, 0, 8]);
        header[65] = 3;
        header[66] = 1;
        let source: ByteSource<String> = ByteSource::new(header.clone(), None);
        let readable = image_extras::pcx::PCXDecoder::new(source).peek_layout().is_ok();
        assert_eq!(readable, version <= 5 && version != 1);
        assert_eq!(detected(&header, Format::Pcx), version < 8);
    }
}
