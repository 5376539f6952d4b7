//! What the bytes of a file say of the image in it.

use vstd::prelude::*;

use super::laws;
use super::laws::Packet;
use super::packed;
use super::raster;
use super::rle;
use super::rle::Scanline;
use super::scan;
use super::tables;
use super::{SgiDecoder, SgiDecoderState, SgiRgbDecodeError, SgiRgbHeaderInfo};
use crate::decimal;
use crate::types::{
    ByteOrder, CodecError, DecodingError, IoFailure, LimitErrorKind, Limits, ParameterErrorKind,
};

verus! {

/// Whether these bytes are a header for an image of this size, with so many channels, so many bytes
/// for each sample, and this name. Numbers of two bytes have the more significant one first. Where the
/// header states fewer than three dimensions, there is one channel, and where it states one, there is
/// one row.
pub open spec fn is_header(
    h: Seq<u8>,
    width: int,
    height: int,
    channels: int,
    bytes: int,
    compressed: bool,
    name: Seq<u8>,
) -> bool {
    &&& h.len() == 512
    &&& h[0] == 1 && h[1] == 218
    &&& h[2] == (if compressed {
        1int
    } else {
        0int
    })
    &&& h[3] == bytes
    &&& h[4] == 0 && 1 <= h[5] <= 3
    &&& h[6] * 256 + h[7] == width
    &&& height == (if h[5] == 1 {
        1int
    } else {
        h[8] * 256 + h[9]
    })
    &&& channels == (if h[5] == 3 {
        h[10] * 256 + h[11]
    } else {
        1int
    })
    &&& h[104] == 0 && h[105] == 0 && h[106] == 0 && h[107] == 0
    &&& is_name(h, name)
}

/// Whether this is the name in a header: characters of seven bits, with a zero behind them.
pub open spec fn is_name(h: Seq<u8>, name: Seq<u8>) -> bool {
    &&& name.len() < 80
    &&& h[24 + name.len() as int] == 0
    &&& forall|i: int|
        0 <= i < name.len() ==> {
            &&& #[trigger] name[i] == h[24 + i]
            &&& 0 < name[i] < 128
        }
}

/// The name that a header has is the one that is written there.
proof fn lemma_name(h: Seq<u8>, name: Seq<u8>)
    requires
        h.len() == 512,
    ensures
        is_name(h, name) <==> super::header_name(h) == Some(name),
{
    let field = h.subrange(24, 104);
    assert forall|i: int| 0 <= i < 80 implies #[trigger] field[i] == h[24 + i] by {}
    if field.contains(0) {
        field.index_of_first_ensures(0);
        let k = field.index_of_first(0)->0;
        if is_name(h, name) {
            let n = name.len() as int;
            assert(field[n] == 0);
            if k < n {
                assert(name[k] == h[24 + k]);
            }
            assert(k == n);
            assert(name =~= field.take(k));
            assert forall|i: int| 0 <= i < k implies #[trigger] field[i] < 128 by {
                assert(name[i] == h[24 + i]);
            }
        }
        if super::header_name(h) == Some(name) {
            assert(name == field.take(k));
            assert forall|i: int| 0 <= i < name.len() implies #[trigger] name[i] == h[24 + i] && 0
                < name[i] < 128 by {
                assert(name[i] == field[i]);
            }
            assert(h[24 + name.len() as int] == field[k]);
        }
    } else if is_name(h, name) {
        assert(field[name.len() as int] == 0);
    }
}

/// Reading a header gives back what was written: the size, the number of channels and the bytes of
/// their samples, whether the image is compressed, and the name.
pub proof fn law_header_round_trip(
    h: Seq<u8>,
    width: int,
    height: int,
    channels: int,
    bytes: int,
    compressed: bool,
    name: Seq<u8>,
)
    requires
        is_header(h, width, height, channels, bytes, compressed, name),
        width >= 1,
        height >= 1,
        1 <= channels <= 4,
        1 <= bytes <= 2,
    ensures
        super::header_info(h) matches Ok((info, found)) && {
            &&& info.xsize == width
            &&& info.ysize == height
            &&& info.color_type.channels() == channels
            &&& info.color_type.is_deep() == (bytes == 2)
            &&& info.is_rle == compressed
            &&& found == name
            &&& info.layout().width == width
            &&& info.layout().height == height
            &&& info.layout().color == info.color_type
            &&& info.wf()
        },
{
    lemma_name(h, name);
}

/// Nothing but a header of an image that is not empty, with one to four channels, is read.
pub proof fn law_only_headers_are_read(h: Seq<u8>)
    requires
        h.len() == 512,
        super::header_info(h) is Ok,
    ensures
        ({
            let (info, name) = super::header_info(h)->Ok_0;
            &&& is_header(
                h,
                info.xsize as int,
                info.ysize as int,
                info.color_type.channels() as int,
                if info.color_type.is_deep() {
                    2
                } else {
                    1
                },
                info.is_rle,
                name,
            )
            &&& info.xsize > 0
            &&& info.ysize > 0
        }),
{
    lemma_name(h, super::header_info(h)->Ok_0.1);
}

/// Why a header is refused. The signature is looked at first, then the fields for the storage and the
/// samples, then the field for the colours, then the sizes, and then the name.
pub proof fn law_headers_are_refused(h: Seq<u8>, e: SgiRgbDecodeError)
    requires
        h.len() == 512,
        super::header_info(h) == Err::<(SgiRgbHeaderInfo, Seq<u8>), SgiRgbDecodeError>(e),
    ensures
        e is BadMagic <==> h[0] != 1 || h[1] != 218,
        match e {
            SgiRgbDecodeError::BadMagic => true,
            SgiRgbDecodeError::HeaderError => h[2] > 1 || h[3] == 0 || h[3] > 2 || h[4] != 0 || h[5]
                == 0 || h[5] > 3,
            SgiRgbDecodeError::UnexpectedColormap(v) => {
                &&& v == ((h[104] * 256 + h[105]) * 256 + h[106]) * 256 + h[107]
                &&& v != 0
            },
            SgiRgbDecodeError::ZeroSize(x, y, z) => {
                &&& x == h[6] * 256 + h[7]
                &&& y == (if h[5] == 1 {
                    1int
                } else {
                    h[8] * 256 + h[9]
                })
                &&& z == (if h[5] == 3 {
                    h[10] * 256 + h[11]
                } else {
                    1int
                })
                &&& x == 0 || y == 0 || z == 0
            },
            SgiRgbDecodeError::InvalidName => forall|name: Seq<u8>| !is_name(h, name),
            SgiRgbDecodeError::UnexpectedZSize(z) => {
                &&& h[5] == 3
                &&& z == h[10] * 256 + h[11]
                &&& z >= 5
            },
            _ => false,
        },
        h[0] == 1 && h[1] == 218 && (h[2] > 1 || h[3] == 0) ==> e is HeaderError,
        h[0] == 1 && h[1] == 218 && h[2] <= 1 && h[3] != 0 && !(h[104] == 0 && h[105] == 0 && h[106]
            == 0 && h[107] == 0) ==> e is UnexpectedColormap,
{
    assert forall|name: Seq<u8>| e is InvalidName implies !is_name(h, name) by {
        lemma_name(h, name);
    }
}

/// The other fields of a header do not matter.
pub proof fn law_other_fields_do_not_matter(a: Seq<u8>, b: Seq<u8>)
    requires
        a.len() == 512,
        b.len() == 512,
        forall|i: int| 0 <= i < 12 || 24 <= i < 108 ==> #[trigger] a[i] == b[i],
    ensures
        super::header_info(a) == super::header_info(b),
{
    assert(a.subrange(24, 104) =~= b.subrange(24, 104));
}

/// The layout of an image is that of the header with which its file begins, whatever follows it. A
/// file that is too short for a header is refused with the error of the reader, or because it ends.
/// Where the image has been read, there is no more.
pub proof fn law_layout_of_a_file<E>(
    d: SgiDecoder<E>,
    width: int,
    height: int,
    channels: int,
    bytes: int,
    compressed: bool,
    name: Seq<u8>,
)
    requires
        d.wf(),
    ensures
        d.state is Init && d.reader.rest().len() >= 512 && is_header(
            d.reader.rest().take(512),
            width,
            height,
            channels,
            bytes,
            compressed,
            name,
        ) && width >= 1 && height >= 1 && 1 <= channels <= 4 && 1 <= bytes <= 2 ==> (
        d.header() matches Ok(info) && info.layout().width == width && info.layout().height == height
            && info.layout().color.channels() == channels && info.layout().color.is_deep() == (bytes
            == 2) && d.opened().reader.rest() == d.reader.rest().skip(512)
            && d.opened().state == SgiDecoderState::Header(info)),
        d.state is Init && d.reader.rest().len() < 512 ==> d.header() == Err::<
            SgiRgbHeaderInfo,
            CodecError<E>,
        >(
            CodecError::IoError(
                match d.reader.fault {
                    Some(f) => IoFailure::Reader(f),
                    None => IoFailure::UnexpectedEof,
                },
            ),
        ),
        d.state is Init && d.reader.rest().len() >= 512 && d.header() is Err ==> (
        d.header()->Err_0 matches CodecError::Decoding(DecodingError::Sgi(e)) && super::header_info(
            d.reader.rest().take(512),
        ) == Err::<(SgiRgbHeaderInfo, Seq<u8>), SgiRgbDecodeError>(e)),
        d.state is Done ==> d.header() == Err::<SgiRgbHeaderInfo, CodecError<E>>(
            CodecError::Parameter(ParameterErrorKind::NoMoreData),
        ),
{
    let rest = d.reader.rest();
    if d.state is Init && rest.len() >= 512 && is_header(
        rest.take(512),
        width,
        height,
        channels,
        bytes,
        compressed,
        name,
    ) && width >= 1 && height >= 1 && 1 <= channels <= 4 && 1 <= bytes <= 2 {
        law_header_round_trip(rest.take(512), width, height, channels, bytes, compressed, name);
        assert(d.opened().reader.rest() =~= rest.skip(512));
    }
}

/// An image is refused because of its size only where it exceeds a limit on that. It is refused for
/// want of memory only where the image, and the table of scanlines if it is compressed, exceed a limit
/// on that, or where there is no table.
pub proof fn law_limits<E>(info: SgiRgbHeaderInfo, limits: Limits, len: nat, has_table: bool)
    ensures
        ({
            let needed = len + (if info.is_rle {
                info.table_bytes()
            } else {
                0
            });
            let too_wide = limits.max_image_width matches Some(w) && info.xsize > w;
            let too_high = limits.max_image_height matches Some(h) && info.ysize > h;
            let too_large = limits.max_alloc matches Some(max) && needed > max;
            SgiDecoder::<E>::refusal(info, limits, len, has_table) == (if too_wide || too_high {
                Some(LimitErrorKind::DimensionError)
            } else if too_large || (info.is_rle && !has_table) {
                Some(LimitErrorKind::InsufficientMemory)
            } else {
                None
            })
        }),
{
}

/// Where a byte of a pixel is in the image. Rows come from the top, and pixels from the left, with
/// their channels, and those with their bytes.
proof fn lemma_place(info: SgiRgbHeaderInfo, l: Scanline, x: int, y: int, c: int, b: int)
    requires
        l.row_id == info.ysize - 1 - y,
        l.plane == c,
    ensures
        scan::place(info, l, x, b) == ((y * info.xsize + x) * info.color_type.channels() + c)
            * rle::depth(info.color_type.is_deep()) + b,
{
    let w = info.xsize as int;
    let ch = info.color_type.channels() as int;
    let d = rle::depth(info.color_type.is_deep());
    assert(info.channels() == ch);
    assert(y * (w * ch * d) + ((x * ch + c) * d + b) == ((y * w + x) * ch + c) * d + b)
        by (nonlinear_arith);
}

/// Reading an image without compression gives its pixels as they are stored: channel after channel,
/// the rows of a channel from the bottom up, and samples of two bytes with the more significant one
/// first. Row `y` counts from the top, and byte `b` of a sample is as the byte order says.
pub proof fn law_pixels_without_compression<E>(
    before: SgiDecoder<E>,
    order: ByteOrder,
    has_table: bool,
    buf0: Seq<u8>,
    after: SgiDecoder<E>,
    buf1: Seq<u8>,
    r: Result<(), CodecError<E>>,
    width: int,
    height: int,
    channels: int,
    bytes: int,
    name: Seq<u8>,
    x: int,
    y: int,
    c: int,
    b: int,
)
    requires
        before.wf(),
        before.state is Init,
        before.reader.rest().len() >= 512 + channels * height * width * bytes,
        before.reader.rest().len() >= 512,
        is_header(before.reader.rest().take(512), width, height, channels, bytes, false, name),
        width >= 1,
        height >= 1,
        1 <= channels <= 4,
        1 <= bytes <= 2,
        before.limits.max_image_width matches Some(w) ==> width <= w,
        before.limits.max_image_height matches Some(h) ==> height <= h,
        before.limits.max_alloc matches Some(max) ==> buf0.len() <= max,
        buf0.len() == width * height * channels * bytes,
        SgiDecoder::frame_read(before, order, has_table, buf0, after, buf1, r),
        0 <= x < width,
        0 <= y < height,
        0 <= c < channels,
        0 <= b < bytes,
    ensures
        r is Ok,
        buf1.len() == buf0.len(),
        buf1[((y * width + x) * channels + c) * bytes + b] == before.reader.rest()[512 + ((c * height
            + (height - 1 - y)) * width + x) * bytes + (if order is Big {
            b
        } else {
            bytes - 1 - b
        })],
        after.state is Done,
        after.reader.rest() == before.reader.rest().skip(512 + channels * height * width * bytes),
{
    let file = before.reader.rest();
    law_layout_of_a_file(before, width, height, channels, bytes, false, name);
    law_header_round_trip(file.take(512), width, height, channels, bytes, false, name);
    let info = before.header()->Ok_0;
    let data = before.opened().reader.rest();
    let deep = info.color_type.is_deep();
    let l = Scanline { offset: 0, length: 0, row_id: (height - 1 - y) as u16, plane: c as u8 };
    law_limits::<E>(info, before.limits, buf0.len(), has_table);
    assert(info.channels() == channels);
    assert(info.samples() == channels * height * width);
    assert(bytes * (channels * height * width) == channels * height * width * bytes)
        by (nonlinear_arith);
    assert(data.len() >= rle::depth(deep) * info.samples());
    assert(channels * height * width * bytes >= 0) by (nonlinear_arith)
        requires
            channels >= 0,
            height >= 0,
            width >= 0,
            bytes >= 0,
    ;
    assert(after.reader.rest() =~= file.skip(512 + channels * height * width * bytes));
    packed::lemma_sample_index(info, l, x, l, x);
    let j = packed::sample_index(info, l, x);
    assert(j == (c * height + (height - 1 - y)) * width + x);
    lemma_place(info, l, x, y, c, b);
    assert(buf1[scan::place(info, l, x, b)] == rle::stored(
        deep,
        order,
        packed::sample_at(deep, data, j),
        b,
    ));
    if deep {
        assert(j * 2 == 2 * j);
        assert(data[2 * j] == file[512 + 2 * j] && data[2 * j + 1] == file[512 + 2 * j + 1]);
        let v = packed::sample_at(deep, data, j);
        assert(v == data[2 * j] * 256 + data[2 * j + 1]);
        assert(v / 256 == data[2 * j] && v % 256 == data[2 * j + 1]);
    } else {
        assert(j * bytes == j) by (nonlinear_arith)
            requires
                bytes == 1,
        ;
        assert(data[j] == file[512 + j]);
    }
}

/// The number that four bytes stand for, the most significant one first.
pub open spec fn number_at(file: Seq<u8>, at: int) -> int {
    ((file[at] * 256 + file[at + 1]) * 256 + file[at + 2]) * 256 + file[at + 3]
}

/// Whether a file has, behind its header, a table that says for every channel, and for every row of
/// it from the bottom up, where the scanline is, and one that says how long it is; and whether the
/// scanlines that are there, behind the tables, are made of these packets.
pub open spec fn has_scanlines(
    file: Seq<u8>,
    width: int,
    height: int,
    channels: int,
    bytes: int,
    packets: spec_fn(u16, u8) -> Seq<Packet>,
) -> bool {
    let n = channels * height;
    &&& file.len() >= 512 + 8 * n
    &&& forall|row: u16, plane: u8|
        row < height && plane < channels ==> {
            let ps = #[trigger] packets(row, plane);
            let i = plane * height + row;
            let offset = number_at(file, 512 + 4 * i);
            let length = number_at(file, 512 + 4 * (n + i));
            &&& 512 + 8 * n <= offset
            &&& 0 < length
            &&& offset + length <= file.len()
            &&& forall|k: int| 0 <= k < ps.len() ==> (#[trigger] ps[k]).wf(bytes == 2)
            &&& laws::expanded(ps).len() == width
            &&& file.subrange(offset, offset + length) == laws::word_bytes(
                bytes == 2,
                laws::encoded(ps),
            )
        }
}

/// Where no entry of the tables is bad, none is found to be.
proof fn lemma_first_bad(t: Seq<u8>, info: SgiRgbHeaderInfo, i: int, n: int)
    requires
        forall|k: int| i <= k < n ==> !tables::is_bad(#[trigger] tables::table_line(t, info, k), info),
    ensures
        tables::first_bad(t, info, i, n) is None,
    decreases n - i,
{
    if i < n {
        assert(!tables::is_bad(tables::table_line(t, info, i), info));
        lemma_first_bad(t, info, i + 1, n);
    }
}

/// Reading a compressed image gives the samples that its scanlines are made of, each in its place.
/// Row `y` counts from the top, and byte `b` of a sample is as the byte order says.
pub proof fn law_pixels_with_compression<E>(
    before: SgiDecoder<E>,
    order: ByteOrder,
    buf0: Seq<u8>,
    after: SgiDecoder<E>,
    buf1: Seq<u8>,
    r: Result<(), CodecError<E>>,
    width: int,
    height: int,
    channels: int,
    bytes: int,
    name: Seq<u8>,
    packets: spec_fn(u16, u8) -> Seq<Packet>,
    x: int,
    y: int,
    c: int,
    b: int,
)
    requires
        before.wf(),
        before.state is Init,
        before.reader.rest().len() >= 512,
        is_header(before.reader.rest().take(512), width, height, channels, bytes, true, name),
        has_scanlines(before.reader.rest(), width, height, channels, bytes, packets),
        width >= 1,
        height >= 1,
        1 <= channels <= 4,
        1 <= bytes <= 2,
        before.limits.max_image_width is None,
        before.limits.max_image_height is None,
        before.limits.max_alloc is None,
        buf0.len() == width * height * channels * bytes,
        SgiDecoder::frame_read(before, order, true, buf0, after, buf1, r),
        0 <= x < width,
        0 <= y < height,
        0 <= c < channels,
        0 <= b < bytes,
    ensures
        r is Ok,
        buf1.len() == buf0.len(),
        ({
            let v = laws::expanded(packets((height - 1 - y) as u16, c as u8))[x];
            buf1[((y * width + x) * channels + c) * bytes + b] == (if bytes == 1 {
                v as u8
            } else if (order is Big) == (b == 0) {
                (v / 256) as u8
            } else {
                (v % 256) as u8
            })
        }),
{
    let file = before.reader.rest();
    law_layout_of_a_file(before, width, height, channels, bytes, true, name);
    law_header_round_trip(file.take(512), width, height, channels, bytes, true, name);
    let info = before.header()->Ok_0;
    let t = before.opened().reader.rest();
    let deep = info.color_type.is_deep();
    let n = info.entries();
    law_limits::<E>(info, before.limits, buf0.len(), true);
    assert(info.channels() == channels);
    assert(n == channels * height);
    assert(n >= 0) by (nonlinear_arith)
        requires
            n == channels * height,
            channels >= 0,
            height >= 0,
    ;
    let d = rle::depth(deep);
    assert(info.image_len() == buf0.len()) by {
        assert(height * (width * channels * bytes) == width * height * channels * bytes)
            by (nonlinear_arith);
    }
    let data = t.skip(8 * n);
    assert forall|i: int| 0 <= i < n implies {
        let l = #[trigger] tables::table_line(t, info, i);
        let ps = packets(l.row_id, l.plane);
        &&& !tables::is_bad(l, info)
        &&& forall|k: int| 0 <= k < ps.len() ==> (#[trigger] ps[k]).wf(deep)
        &&& laws::expanded(ps).len() == info.xsize
        &&& l.end() <= info.data_start() + data.len()
        &&& laws::encoded_at(l, info.data_start(), data) == laws::word_bytes(
            deep,
            laws::encoded(ps),
        )
    } by {
        let l = tables::table_line(t, info, i);
        let row = i % height;
        let plane = i / height;
        assert(i == plane * height + row && 0 <= row < height && 0 <= plane < channels)
            by (nonlinear_arith)
            requires
                row == i % height,
                plane == i / height,
                height >= 1,
                0 <= i < channels * height,
        ;
        assert(l.row_id == row && l.plane == plane);
        let ps = packets(l.row_id, l.plane);
        let offset = number_at(file, 512 + 4 * i);
        let length = number_at(file, 512 + 4 * (n + i));
        assert(t[4 * i] == file[512 + 4 * i] && t[4 * i + 1] == file[512 + 4 * i + 1] && t[4 * i + 2]
            == file[512 + 4 * i + 2] && t[4 * i + 3] == file[512 + 4 * i + 3]);
        let j = 4 * (n + i);
        assert(t[j] == file[512 + j] && t[j + 1] == file[512 + j + 1] && t[j + 2] == file[512 + j
            + 2] && t[j + 3] == file[512 + j + 3]);
        assert(l.offset == offset);
        assert(l.length == length);
        assert(laws::encoded_at(l, info.data_start(), data) =~= file.subrange(
            offset,
            offset + length,
        ));
    }
    lemma_first_bad(t, info, 0, n);
    assert forall|l: Scanline| #[trigger] tables::table_lines(t, info).contains(l) implies {
        let ps = packets(l.row_id, l.plane);
        &&& forall|i: int| 0 <= i < ps.len() ==> (#[trigger] ps[i]).wf(deep)
        &&& laws::expanded(ps).len() == info.xsize
        &&& l.end() <= info.data_start() + data.len()
        &&& laws::encoded_at(l, info.data_start(), data) == laws::word_bytes(
            deep,
            laws::encoded(ps),
        )
    } by {
        let i = choose|i: int|
            0 <= i < tables::table_lines(t, info).len() && tables::table_lines(t, info)[i] == l;
        assert(l == tables::table_line(t, info, i));
    }
    laws::law_rle_file_round_trip(before, order, true, packets, buf0, after, buf1, r);
    let l = Scanline { offset: 0, length: 0, row_id: (height - 1 - y) as u16, plane: c as u8 };
    lemma_place(info, l, x, y, c, b);
    assert(buf1[scan::place(info, l, x, b)] == rle::stored(
        deep,
        order,
        laws::expanded(packets(l.row_id, l.plane))[x],
        b,
    ));
}

/// A compressed image is refused at the first entry of the tables that has no length, or that lies
/// before the end of the tables. The buffer is left as it is.
pub proof fn law_bad_entries_are_refused<E>(
    before: SgiDecoder<E>,
    order: ByteOrder,
    buf0: Seq<u8>,
    after: SgiDecoder<E>,
    buf1: Seq<u8>,
    r: Result<(), CodecError<E>>,
    width: int,
    height: int,
    channels: int,
    bytes: int,
    name: Seq<u8>,
    bad: int,
)
    requires
        before.wf(),
        before.state is Init,
        before.reader.rest().len() >= 512,
        is_header(before.reader.rest().take(512), width, height, channels, bytes, true, name),
        width >= 1,
        height >= 1,
        1 <= channels <= 4,
        1 <= bytes <= 2,
        before.limits.max_image_width is None,
        before.limits.max_image_height is None,
        before.limits.max_alloc is None,
        buf0.len() == width * height * channels * bytes,
        SgiDecoder::frame_read(before, order, true, buf0, after, buf1, r),
        before.reader.rest().len() >= 512 + 8 * (channels * height),
        0 <= bad < channels * height,
        ({
            let file = before.reader.rest();
            let n = channels * height;
            &&& number_at(file, 512 + 4 * bad) < 512 + 8 * n || number_at(file, 512 + 4 * (n + bad))
                == 0
            &&& forall|i: int|
                0 <= i < bad ==> #[trigger] number_at(file, 512 + 4 * i) >= 512 + 8 * n
                    && number_at(file, 512 + 4 * (n + i)) > 0
        }),
    ensures
        buf1 == buf0,
        r matches Err(CodecError::Decoding(DecodingError::Sgi(SgiRgbDecodeError::RLERowInvalid(o, l))))
            && o == number_at(before.reader.rest(), 512 + 4 * bad) && l == number_at(
            before.reader.rest(),
            512 + 4 * (channels * height + bad),
        ),
{
    let file = before.reader.rest();
    law_layout_of_a_file(before, width, height, channels, bytes, true, name);
    law_header_round_trip(file.take(512), width, height, channels, bytes, true, name);
    let info = before.header()->Ok_0;
    let t = before.opened().reader.rest();
    let n = info.entries();
    law_limits::<E>(info, before.limits, buf0.len(), true);
    assert(info.channels() == channels);
    assert(n == channels * height);
    assert forall|i: int| 0 <= i < n implies (#[trigger] tables::table_line(t, info, i)).offset
        == number_at(file, 512 + 4 * i) && tables::table_line(t, info, i).length == number_at(
        file,
        512 + 4 * (n + i),
    ) by {
        assert(t[4 * i] == file[512 + 4 * i] && t[4 * i + 1] == file[512 + 4 * i + 1] && t[4 * i + 2]
            == file[512 + 4 * i + 2] && t[4 * i + 3] == file[512 + 4 * i + 3]);
        let j = 4 * (n + i);
        assert(t[j] == file[512 + j] && t[j + 1] == file[512 + j + 1] && t[j + 2] == file[512 + j
            + 2] && t[j + 3] == file[512 + j + 3]);
    }
    lemma_first_bad_is(t, info, 0, n, bad);
}

/// The first entry that is bad is found.
proof fn lemma_first_bad_is(t: Seq<u8>, info: SgiRgbHeaderInfo, i: int, n: int, bad: int)
    requires
        i <= bad < n,
        tables::is_bad(tables::table_line(t, info, bad), info),
        forall|k: int|
            i <= k < bad ==> !tables::is_bad(#[trigger] tables::table_line(t, info, k), info),
    ensures
        tables::first_bad(t, info, i, n) == Some(bad),
    decreases n - i,
{
    if i < bad {
        assert(!tables::is_bad(tables::table_line(t, info, i), info));
        lemma_first_bad_is(t, info, i + 1, n, bad);
    }
}

/// An image whose file ends too early is not read with success: with samples missing, where it is not
/// compressed, or else with tables that end too early, or a scanline that goes beyond the end. Where
/// it is not compressed, the error is that of the reader, or that there is no more.
pub proof fn law_short_files_are_refused<E>(
    before: SgiDecoder<E>,
    order: ByteOrder,
    has_table: bool,
    buf0: Seq<u8>,
    after: SgiDecoder<E>,
    buf1: Seq<u8>,
    r: Result<(), CodecError<E>>,
    width: int,
    height: int,
    channels: int,
    bytes: int,
    compressed: bool,
    name: Seq<u8>,
    i: int,
)
    requires
        before.wf(),
        before.state is Init,
        before.reader.rest().len() >= 512,
        is_header(before.reader.rest().take(512), width, height, channels, bytes, compressed, name),
        width >= 1,
        height >= 1,
        1 <= channels <= 4,
        1 <= bytes <= 2,
        SgiDecoder::frame_read(before, order, has_table, buf0, after, buf1, r),
        !compressed ==> before.reader.rest().len() < 512 + channels * height * width * bytes,
        compressed ==> before.reader.rest().len() < 512 + 8 * (channels * height) || (0 <= i
            < channels * height && number_at(before.reader.rest(), 512 + 4 * i) + number_at(
            before.reader.rest(),
            512 + 4 * (channels * height + i),
        ) > before.reader.rest().len()),
    ensures
        r is Err,
        !compressed && !(r->Err_0 is Limits) ==> r->Err_0 == CodecError::<E>::IoError(
            match before.reader.fault {
                Some(f) => IoFailure::Reader(f),
                None => IoFailure::UnexpectedEof,
            },
        ),
{
    let file = before.reader.rest();
    law_layout_of_a_file(before, width, height, channels, bytes, compressed, name);
    law_header_round_trip(file.take(512), width, height, channels, bytes, compressed, name);
    let info = before.header()->Ok_0;
    let opened = before.opened().reader;
    let t = opened.rest();
    let n = info.entries();
    assert(info.channels() == channels);
    assert(n == channels * height);
    assert(n >= 0) by (nonlinear_arith)
        requires
            n == channels * height,
            channels >= 0,
            height >= 0,
    ;
    assert(info.samples() == channels * height * width);
    assert(bytes * (channels * height * width) == channels * height * width * bytes)
        by (nonlinear_arith);
    if compressed && r is Ok {
        assert(tables::readable(t, info) == n);
        assert(t.len() >= 8 * n);
        let behind = opened.advanced(8 * n);
        let data = behind.rest();
        assert(data =~= t.skip(8 * n));
        let ls = tables::table_lines(t, info);
        let k = choose|k: int| #[trigger]
            raster::decoded(
                info,
                order,
                ls,
                info.data_start(),
                data,
                behind.window as int,
                behind.fault,
                k,
                buf0,
                buf1,
                r,
            ) && after.reader == raster::reader_after(behind, k);
        reveal(raster::decoded);
        let l = tables::table_line(t, info, i);
        assert(t[4 * i] == file[512 + 4 * i] && t[4 * i + 1] == file[512 + 4 * i + 1] && t[4 * i + 2]
            == file[512 + 4 * i + 2] && t[4 * i + 3] == file[512 + 4 * i + 3]);
        let j = 4 * (n + i);
        assert(t[j] == file[512 + j] && t[j + 1] == file[512 + j + 1] && t[j + 2] == file[512 + j
            + 2] && t[j + 3] == file[512 + j + 3]);
        assert(ls[i] == l);
        assert(ls.contains(l));
        assert(l.end() > info.data_start() + data.len());
    }
}

/// The table of scanlines takes as much memory as its entries do, of which there is one for every row
/// of every channel, as far as that can be counted in 64 bits.
pub proof fn law_table_memory(info: SgiRgbHeaderInfo)
    ensures
        ({
            let entries = info.color_type.channels() * info.ysize;
            let size = vstd::layout::size_of::<super::SgiRgbScanlineState>();
            &&& info.entries() == entries
            &&& info.data_start() == 512 + 8 * entries
            &&& entries * size <= 0xffff_ffff_ffff_ffff ==> info.table_bytes() == entries * size
            &&& entries * size > 0xffff_ffff_ffff_ffff ==> info.table_bytes()
                == 0xffff_ffff_ffff_ffff
        }),
{
    let entries = info.color_type.channels() * info.ysize;
    assert(entries >= 0) by (nonlinear_arith)
        requires
            entries == info.color_type.channels() * info.ysize,
            info.color_type.channels() >= 0,
            info.ysize >= 0,
    ;
    assert(info.entries() as nat == entries);
}

/// A scanline that is accepted has exactly as many samples as the image is wide.
pub proof fn law_accepted_scanlines_are_complete(deep: bool, bytes: Seq<u8>, xsize: u16)
    requires
        bytes.len() > 0,
        rle::run(deep, rle::fresh(deep), bytes, true, xsize).error is None,
    ensures
        rle::run(deep, rle::fresh(deep), bytes, true, xsize).samples.len() == xsize,
{
    rle::lemma_run(deep, rle::fresh(deep), bytes, true, xsize);
}

/// Of an image without compression whose file ends too early, the samples that are there are read, and
/// the others are left as they were.
pub proof fn law_pixels_of_short_files<E>(
    before: SgiDecoder<E>,
    order: ByteOrder,
    has_table: bool,
    buf0: Seq<u8>,
    after: SgiDecoder<E>,
    buf1: Seq<u8>,
    r: Result<(), CodecError<E>>,
    width: int,
    height: int,
    channels: int,
    bytes: int,
    name: Seq<u8>,
    x: int,
    y: int,
    c: int,
    b: int,
)
    requires
        before.wf(),
        before.state is Init,
        512 <= before.reader.rest().len() < 512 + channels * height * width * bytes,
        is_header(before.reader.rest().take(512), width, height, channels, bytes, false, name),
        width >= 1,
        height >= 1,
        1 <= channels <= 4,
        1 <= bytes <= 2,
        before.limits.max_image_width is None,
        before.limits.max_image_height is None,
        before.limits.max_alloc is None,
        buf0.len() == width * height * channels * bytes,
        SgiDecoder::frame_read(before, order, has_table, buf0, after, buf1, r),
        0 <= x < width,
        0 <= y < height,
        0 <= c < channels,
        0 <= b < bytes,
    ensures
        ({
            let j = (c * height + (height - 1 - y)) * width + x;
            let q = ((y * width + x) * channels + c) * bytes + b;
            if 512 + (j + 1) * bytes <= before.reader.rest().len() {
                buf1[q] == before.reader.rest()[512 + j * bytes + (if order is Big {
                    b
                } else {
                    bytes - 1 - b
                })]
            } else {
                buf1[q] == buf0[q]
            }
        }),
{
    let file = before.reader.rest();
    law_layout_of_a_file(before, width, height, channels, bytes, false, name);
    law_header_round_trip(file.take(512), width, height, channels, bytes, false, name);
    let info = before.header()->Ok_0;
    let data = before.opened().reader.rest();
    let deep = info.color_type.is_deep();
    let l = Scanline { offset: 0, length: 0, row_id: (height - 1 - y) as u16, plane: c as u8 };
    law_limits::<E>(info, before.limits, buf0.len(), has_table);
    assert(info.channels() == channels);
    assert(info.samples() == channels * height * width);
    assert(bytes * (channels * height * width) == channels * height * width * bytes)
        by (nonlinear_arith);
    packed::lemma_sample_index(info, l, x, l, x);
    let j = packed::sample_index(info, l, x);
    assert(j == (c * height + (height - 1 - y)) * width + x);
    lemma_place(info, l, x, y, c, b);
    let count = packed::available(info, data);
    assert(buf1[scan::place(info, l, x, b)] == (if j < count {
        rle::stored(deep, order, packed::sample_at(deep, data, j), b)
    } else {
        buf0[scan::place(info, l, x, b)]
    }));
    if deep {
        assert((j + 1) * bytes == 2 * (j + 1) && j * bytes == 2 * j) by (nonlinear_arith)
            requires
                bytes == 2,
        ;
        if j < count {
            assert(data[2 * j] == file[512 + 2 * j] && data[2 * j + 1] == file[512 + 2 * j + 1]);
            let v = packed::sample_at(deep, data, j);
            assert(v == data[2 * j] * 256 + data[2 * j + 1]);
            assert(v / 256 == data[2 * j] && v % 256 == data[2 * j + 1]);
        }
    } else {
        assert((j + 1) * bytes == j + 1 && j * bytes == j) by (nonlinear_arith)
            requires
                bytes == 1,
        ;
        if j < count {
            assert(data[j] == file[512 + j]);
        }
    }
}

/// Texts of errors hold the numbers of the error, in decimal.
pub proof fn law_error_texts(code: u32, dim: u16, x: u16, y: u16, z: u16, offset: u32, length: u32)
    ensures
        SgiRgbDecodeError::UnexpectedColormap(code).text() == "Unexpected color map value ("@ + (
        decimal::decimal_text(code as nat) + ")"@),
        SgiRgbDecodeError::UnexpectedZSize(dim).text() == "Unexpected Z dimension is >= 5 ("@ + (
        decimal::decimal_text(dim as nat) + ")"@),
        SgiRgbDecodeError::ZeroSize(x, y, z).text() == "Image has zero size: x*y*z="@ + (
        decimal::decimal_text(x as nat) + ("*"@ + (decimal::decimal_text(y as nat) + ("*"@ + (
        decimal::decimal_text(z as nat) + "=0"@))))),
        SgiRgbDecodeError::RLERowInvalid(offset, length).text() == "Bad RLE row info (offset="@ + (
        decimal::decimal_text(offset as nat) + (", length="@ + (decimal::decimal_text(length as nat)
            + "); empty or not in image data region"@))),
{
    let a = decimal::decimal_text(code as nat);
    assert(SgiRgbDecodeError::UnexpectedColormap(code).text() =~= "Unexpected color map value ("@ + (a
        + ")"@));
    let d = decimal::decimal_text(dim as nat);
    assert(SgiRgbDecodeError::UnexpectedZSize(dim).text() =~= "Unexpected Z dimension is >= 5 ("@ + (d
        + ")"@));
    let (tx, ty, tz) = (
        decimal::decimal_text(x as nat),
        decimal::decimal_text(y as nat),
        decimal::decimal_text(z as nat),
    );
    assert(SgiRgbDecodeError::ZeroSize(x, y, z).text() =~= "Image has zero size: x*y*z="@ + (tx + ("*"@
        + (ty + ("*"@ + (tz + "=0"@))))));
    let (o, l) = (decimal::decimal_text(offset as nat), decimal::decimal_text(length as nat));
    assert(SgiRgbDecodeError::RLERowInvalid(offset, length).text() =~= "Bad RLE row info (offset="@ + (
    o + (", length="@ + (l + "); empty or not in image data region"@))));
}

} // verus!
