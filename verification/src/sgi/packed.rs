//! Images that are stored without compression: channel by channel, and the rows of a channel
//! from the bottom up.

use vstd::prelude::*;

use super::rle;
use super::rle::Scanline;
use super::scan;
use super::scan::put_pixel;
use super::SgiRgbHeaderInfo;
use crate::source;
use crate::source::ByteSource;
use crate::types::{ByteOrder, CodecError};

verus! {

impl SgiRgbHeaderInfo {
    /// The number of samples of the image.
    pub open spec fn samples(self) -> int {
        self.channels() * self.ysize * self.xsize
    }
}

/// The place of a sample among those of a file.
pub open spec fn sample_index(info: SgiRgbHeaderInfo, line: Scanline, x: int) -> int {
    (line.plane * info.ysize + line.row_id) * info.xsize + x
}

/// Sample `j` of a file.
pub open spec fn sample_at(deep: bool, data: Seq<u8>, j: int) -> u16 {
    if deep {
        source::be16(data, 2 * j)
    } else {
        data[j] as u16
    }
}

/// Whether the image holds the first `count` samples of a file, and is otherwise as before.
pub open spec fn unpacked(
    info: SgiRgbHeaderInfo,
    order: ByteOrder,
    data: Seq<u8>,
    count: int,
    before: Seq<u8>,
    after: Seq<u8>,
) -> bool {
    let deep = info.color_type.is_deep();
    &&& after.len() == before.len()
    &&& forall|l: Scanline, x: int, b: int|
        l.row_id < info.ysize && l.plane < info.channels() && 0 <= x < info.xsize && 0 <= b
            < rle::depth(deep) ==> after[#[trigger] scan::place(info, l, x, b)] == (if sample_index(
            info,
            l,
            x,
        ) < count {
            rle::stored(deep, order, sample_at(deep, data, sample_index(info, l, x)), b)
        } else {
            before[scan::place(info, l, x, b)]
        })
}

/// The number of samples that can be read.
pub open spec fn available(info: SgiRgbHeaderInfo, data: Seq<u8>) -> int {
    let d = rle::depth(info.color_type.is_deep());
    if data.len() >= d * info.samples() {
        info.samples()
    } else {
        data.len() as int / d
    }
}

/// Different samples are at different places in a file, all of them before its end.
pub proof fn lemma_sample_index(
    info: SgiRgbHeaderInfo,
    l: Scanline,
    x: int,
    o: Scanline,
    y: int,
)
    requires
        l.row_id < info.ysize,
        l.plane < info.channels(),
        0 <= x < info.xsize,
        o.row_id < info.ysize,
        o.plane < info.channels(),
        0 <= y < info.xsize,
    ensures
        0 <= sample_index(info, l, x) < info.samples(),
        sample_index(info, l, x) == sample_index(info, o, y) ==> l.plane == o.plane && l.row_id
            == o.row_id && x == y,
{
    let h = info.ysize as int;
    let w = info.xsize as int;
    let a = l.plane * h + l.row_id;
    let b = o.plane * h + o.row_id;
    assert(0 <= a && a + 1 <= info.channels() * h) by (nonlinear_arith)
        requires
            a == l.plane * h + l.row_id,
            0 <= l.plane,
            l.plane + 1 <= info.channels(),
            0 <= l.row_id < h,
    ;
    assert(0 <= a * w && a * w + w <= (info.channels() * h) * w) by (nonlinear_arith)
        requires
            0 <= a,
            a + 1 <= info.channels() * h,
            w > 0,
    ;
    if sample_index(info, l, x) == sample_index(info, o, y) {
        assert(a == b) by (nonlinear_arith)
            requires
                a * w + x == b * w + y,
                0 <= x < w,
                0 <= y < w,
        ;
        assert(l.plane == o.plane) by (nonlinear_arith)
            requires
                l.plane * h + l.row_id == o.plane * h + o.row_id,
                0 <= l.row_id < h,
                0 <= o.row_id < h,
        ;
    }
}

/// One more sample.
proof fn lemma_unpacked_next(
    info: SgiRgbHeaderInfo,
    order: ByteOrder,
    data: Seq<u8>,
    line: Scanline,
    x: int,
    b0: Seq<u8>,
    b1: Seq<u8>,
    b2: Seq<u8>,
)
    requires
        line.row_id < info.ysize,
        line.plane < info.channels(),
        0 <= x < info.xsize,
        unpacked(info, order, data, sample_index(info, line, x), b0, b1),
        scan::line_painted(
            info,
            order,
            line,
            x,
            seq![sample_at(info.color_type.is_deep(), data, sample_index(info, line, x))],
            b1,
            b2,
        ),
    ensures
        unpacked(info, order, data, sample_index(info, line, x) + 1, b0, b2),
{
    let deep = info.color_type.is_deep();
    let j = sample_index(info, line, x);
    assert forall|l: Scanline, y: int, b: int|
        l.row_id < info.ysize && l.plane < info.channels() && 0 <= y < info.xsize && 0 <= b
            < rle::depth(deep) implies b2[#[trigger] scan::place(info, l, y, b)] == (
    if sample_index(info, l, y) < j + 1 {
        rle::stored(deep, order, sample_at(deep, data, sample_index(info, l, y)), b)
    } else {
        b0[scan::place(info, l, y, b)]
    }) by {
        lemma_sample_index(info, l, y, line, x);
        let q = scan::place(info, l, y, b);
        assert(b1[q] == (if sample_index(info, l, y) < j {
            rle::stored(deep, order, sample_at(deep, data, sample_index(info, l, y)), b)
        } else {
            b0[q]
        }));
    }
}

/// Reads a sample.
fn read_sample<E>(reader: &mut ByteSource<E>, deep: bool) -> (r: Result<u16, CodecError<E>>)
    requires
        old(reader).wf(),
    ensures
        final(reader).wf(),
        rle::depth(deep) <= old(reader).rest().len() ==> {
            &&& r == Ok::<u16, CodecError<E>>(sample_at(deep, old(reader).rest(), 0))
            &&& *final(reader) == old(reader).advanced(rle::depth(deep))
        },
        rle::depth(deep) > old(reader).rest().len() ==> {
            &&& r == Err::<u16, CodecError<E>>(CodecError::IoError(old(reader).end_failure()))
            &&& *final(reader) == old(reader).exhausted()
        },
{
    let res = if deep {
        reader.read_be16()
    } else {
        match reader.read_u8() {
            Ok(b) => Ok(b as u16),
            Err(e) => Err(e),
        }
    };
    match res {
        Ok(v) => Ok(v),
        Err(e) => Err(CodecError::IoError(e)),
    }
}

/// Reads an image that is stored without compression.
pub fn read_packed<E>(
    reader: &mut ByteSource<E>,
    info: SgiRgbHeaderInfo,
    buf: &mut [u8],
    order: ByteOrder,
) -> (r: Result<(), CodecError<E>>)
    requires
        old(reader).wf(),
        info.wf(),
        old(buf)@.len() == info.image_len(),
    ensures
        final(reader).wf(),
        unpacked(
            info,
            order,
            old(reader).rest(),
            available(info, old(reader).rest()),
            old(buf)@,
            final(buf)@,
        ),
        ({
            let size = rle::depth(info.color_type.is_deep()) * info.samples();
            &&& size <= old(reader).rest().len() ==> {
                &&& r == Ok::<(), CodecError<E>>(())
                &&& *final(reader) == old(reader).advanced(size)
            }
            &&& size > old(reader).rest().len() ==> {
                &&& r == Err::<(), CodecError<E>>(CodecError::IoError(old(reader).end_failure()))
                &&& *final(reader) == old(reader).exhausted()
            }
        }),
{
    let ghost data = reader.rest();
    let ghost b0 = buf@;
    let channels = info.color_type.channel_count();
    let deep = info.color_type.bytes_per_pixel() > channels;
    let ghost d = rle::depth(deep);
    let ghost mut j: int = 0;
    let mut plane: u8 = 0;
    proof {
        assert((0 * info.ysize) * info.xsize == 0) by (nonlinear_arith);
        assert forall|l: Scanline, x: int, b: int|
            l.row_id < info.ysize && l.plane < info.channels() && 0 <= x < info.xsize && 0 <= b
                < rle::depth(deep) implies sample_index(info, l, x) >= 0
            && #[trigger] scan::place(info, l, x, b) == scan::place(info, l, x, b) by {
            lemma_sample_index(info, l, x, l, x);
        }
    }
    while plane < channels
        invariant
            plane <= channels,
            channels == info.channels(),
            deep == info.color_type.is_deep(),
            d == rle::depth(deep),
            info.wf(),
            old(reader).wf(),
            reader.wf(),
            data == old(reader).rest(),
            b0 == old(buf)@,
            buf@.len() == info.image_len(),
            j == (plane * info.ysize) * info.xsize,
            0 <= d * j <= data.len(),
            *reader == old(reader).advanced(d * j),
            unpacked(info, order, data, j, b0, buf@),
        decreases channels - plane,
    {
        let mut y: u16 = 0;
        while y < info.ysize
            invariant
                plane < channels,
                y <= info.ysize,
                channels == info.channels(),
                deep == info.color_type.is_deep(),
                d == rle::depth(deep),
                info.wf(),
                old(reader).wf(),
                reader.wf(),
                data == old(reader).rest(),
                b0 == old(buf)@,
                buf@.len() == info.image_len(),
                j == (plane * info.ysize + y) * info.xsize,
                0 <= d * j <= data.len(),
                *reader == old(reader).advanced(d * j),
                unpacked(info, order, data, j, b0, buf@),
            decreases info.ysize - y,
        {
            let line = Scanline { offset: 0, length: 0, row_id: y, plane };
            let mut x: u16 = 0;
            while x < info.xsize
                invariant
                    plane < channels,
                    y < info.ysize,
                    x <= info.xsize,
                    line == (Scanline { offset: 0, length: 0, row_id: y, plane }),
                    channels == info.channels(),
                    deep == info.color_type.is_deep(),
                    d == rle::depth(deep),
                    info.wf(),
                    old(reader).wf(),
                    reader.wf(),
                    data == old(reader).rest(),
                    b0 == old(buf)@,
                    buf@.len() == info.image_len(),
                    j == (plane * info.ysize + y) * info.xsize + x,
                    0 <= d * j <= data.len(),
                    *reader == old(reader).advanced(d * j),
                    unpacked(info, order, data, j, b0, buf@),
                decreases info.xsize - x,
            {
                let ghost b1 = buf@;
                proof {
                    assert(reader.rest() =~= data.skip(d * j));
                    lemma_sample_index(info, line, x as int, line, x as int);
                    assert(d * (j + 1) == d * j + d) by (nonlinear_arith);
                    assert(d * (j + 1) <= d * info.samples()) by (nonlinear_arith)
                        requires
                            j + 1 <= info.samples(),
                            d > 0,
                    ;
                }
                let v = read_sample(reader, deep)?;
                put_pixel(buf, info, line, x, v, order);
                proof {
                    lemma_unpacked_next(info, order, data, line, x as int, b0, b1, buf@);
                    j = j + 1;
                }
                x += 1;
            }
            proof {
                assert((plane * info.ysize + y) * info.xsize + info.xsize == (plane * info.ysize + y
                    + 1) * info.xsize) by (nonlinear_arith);
            }
            y += 1;
        }
        proof {
            assert(plane * info.ysize + info.ysize == (plane + 1) * info.ysize)
                by (nonlinear_arith);
        }
        plane += 1;
    }
    Ok(())
}

} // verus!
