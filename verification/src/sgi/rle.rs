//! The run-length encoding of scanlines.
//!
//! An encoded scanline is a sequence of packets. A packet starts with a counter, of which the
//! low seven bits are a number of samples. If the next higher bit is set, that many samples
//! follow. Else one sample follows, which is repeated. A counter for no samples at all ends
//! the scanline. In files with samples of 16 bits, counters take up two bytes too, of which
//! the first is ignored.

use vstd::prelude::*;

use super::SgiRgbDecodeError;
use crate::source::be16_value;
use crate::types;
use crate::types::ByteOrder;

verus! {

/// Where in the file an encoded scanline is, and where in the image it belongs.
#[derive(Debug, Clone, Copy, PartialEq, Eq, Structural)]
pub struct Scanline {
    /// Offset of the encoded scanline in the file.
    pub offset: u32,
    /// Length of the encoded scanline in the file, including its end marker.
    pub length: u32,
    /// Row of the image, counting from the bottom.
    pub row_id: u16,
    /// Channel.
    pub plane: u8,
}

impl Scanline {
    /// The offset of what follows the encoded scanline.
    pub open spec fn end(self) -> int {
        self.offset + self.length
    }
}

/// How far the decoding of a scanline has come.
#[derive(Debug, Clone, Copy, PartialEq, Eq, Structural)]
pub struct RleMachine {
    /// The number of samples that have been decoded.
    pub position: u16,
    /// The counter that was read last. While samples are copied it counts down.
    pub counter: u8,
    /// The first byte of a pair.
    pub data_char_hi: u8,
    /// Whether a counter comes next.
    pub at_counter: bool,
    /// Whether the first byte of a pair comes next.
    pub high_byte: bool,
}

/// State associated with the processing of a scanline.
#[derive(Debug, Clone, Copy, PartialEq, Eq, Structural)]
pub struct SgiRgbScanlineState {
    pub line: Scanline,
    /// Index of the preceding scanline that contains the current file position, or
    /// `u32::MAX` if there is none.
    pub prec_active_line: u32,
    pub machine: RleMachine,
}

/// Before the first byte of a scanline. The parameter says whether samples have 16 bits.
pub open spec fn fresh(deep: bool) -> RleMachine {
    RleMachine { position: 0, counter: 0, data_char_hi: 0, at_counter: true, high_byte: deep }
}

impl RleMachine {
    /// What holds of every machine that can take a byte: it has not decoded more samples than
    /// a scanline has, and if no counter comes next, the last one was not an end marker.
    pub open spec fn wf(self, xsize: u16) -> bool {
        &&& self.position <= xsize
        &&& !self.at_counter ==> self.counter % 128 != 0
    }
}

/// What becomes of a machine, the samples that are decoded, and whether the scanline ends or,
/// as an error, whether it has too many samples (`true`) or too few (`false`).
pub type Step = (RleMachine, Seq<u16>, Result<bool, bool>);

/// Takes a counter, or a sample.
pub open spec fn take_word(m: RleMachine, counter: u8, sample: u16, xsize: u16) -> Step {
    let count = m.counter % 128;
    if m.at_counter {
        (
            RleMachine { counter, at_counter: false, ..m },
            Seq::empty(),
            if counter % 128 != 0 {
                Ok(false)
            } else if m.position == xsize {
                Ok(true)
            } else {
                Err(false)
            },
        )
    } else if m.counter < 128 {
        if m.position + count > xsize {
            (m, Seq::empty(), Err(true))
        } else {
            (
                RleMachine { position: (m.position + count) as u16, at_counter: true, ..m },
                Seq::new(count as nat, |i: int| sample),
                Ok(false),
            )
        }
    } else {
        if m.position >= xsize {
            (m, Seq::empty(), Err(true))
        } else {
            (
                RleMachine {
                    position: (m.position + 1) as u16,
                    counter: (m.counter - 1) as u8,
                    at_counter: count == 1,
                    ..m
                },
                seq![sample],
                Ok(false),
            )
        }
    }
}

/// Takes a byte.
pub open spec fn take_byte(deep: bool, m: RleMachine, byte: u8, xsize: u16) -> Step {
    if !deep {
        take_word(m, byte, byte as u16, xsize)
    } else if m.high_byte {
        (
            RleMachine { data_char_hi: byte, high_byte: false, ..m },
            Seq::empty(),
            Ok(false),
        )
    } else {
        let (next, out, r) = take_word(m, byte, (m.data_char_hi * 256 + byte) as u16, xsize);
        match r {
            Ok(_) => (RleMachine { high_byte: true, ..next }, out, r),
            Err(_) => (next, out, r),
        }
    }
}

/// The number of bytes of a sample.
pub open spec fn depth(deep: bool) -> int {
    if deep {
        2
    } else {
        1
    }
}

/// Byte `b` of a stored sample.
pub open spec fn stored(deep: bool, order: ByteOrder, v: u16, b: int) -> u8 {
    if deep {
        types::sample_byte(order, v, b)
    } else {
        v as u8
    }
}

/// Where in a row of the image byte `b` of channel `c` of pixel `x` is.
pub open spec fn spot(deep: bool, channels: u8, x: int, c: int, b: int) -> int {
    (x * channels + c) * depth(deep) + b
}

/// Whether the pixels of a row from `from` on have become `out` in channel `plane`, and
/// everything else is as before.
pub open spec fn row_painted(
    deep: bool,
    order: ByteOrder,
    xsize: u16,
    channels: u8,
    plane: u8,
    from: int,
    out: Seq<u16>,
    before: Seq<u8>,
    after: Seq<u8>,
) -> bool {
    &&& after.len() == before.len()
    &&& forall|x: int, c: int, b: int|
        0 <= x < xsize && 0 <= c < channels && 0 <= b < depth(deep) ==> after[#[trigger] spot(
            deep,
            channels,
            x,
            c,
            b,
        )] == (if c == plane && from <= x < from + out.len() {
            stored(deep, order, out[x - from], b)
        } else {
            before[spot(deep, channels, x, c, b)]
        })
}

/// Places in a row are within it, and are different for different bytes.
pub proof fn lemma_spot(
    deep: bool,
    channels: u8,
    xsize: u16,
    x: int,
    c: int,
    b: int,
    y: int,
    d: int,
    e: int,
)
    requires
        0 <= x < xsize,
        0 <= c < channels,
        0 <= b < depth(deep),
        0 <= y,
        0 <= d < channels,
        0 <= e < depth(deep),
    ensures
        0 <= spot(deep, channels, x, c, b) < xsize * channels * depth(deep),
        spot(deep, channels, x, c, b) == spot(deep, channels, y, d, e) ==> x == y && c == d && b
            == e,
{
    let ch = channels as int;
    let n = depth(deep);
    let s = x * ch + c;
    let t = y * ch + d;
    assert(0 <= s && s + 1 <= xsize * ch) by (nonlinear_arith)
        requires
            s == x * ch + c,
            0 <= x,
            x + 1 <= xsize,
            0 <= c < ch,
    ;
    assert((s + 1) * n <= (xsize * ch) * n) by (nonlinear_arith)
        requires
            s + 1 <= xsize * ch,
            n > 0,
    ;
    assert((s + 1) * n == s * n + n) by (nonlinear_arith);
    assert(0 <= s * n) by (nonlinear_arith)
        requires
            s >= 0,
            n > 0,
    ;
    if spot(deep, channels, x, c, b) == spot(deep, channels, y, d, e) {
        assert(s == t) by {
            if deep {
            }
        }
        assert(x == y) by (nonlinear_arith)
            requires
                x * ch + c == y * ch + d,
                0 <= c < ch,
                0 <= d < ch,
        ;
    }
}

/// Writes the sample of channel `plane` of pixel `x` of a row.
pub fn put_sample(
    deep: bool,
    buf_row: &mut [u8],
    xsize: u16,
    channels: u8,
    plane: u8,
    x: u16,
    v: u16,
    order: ByteOrder,
)
    requires
        plane < channels,
        x < xsize,
        old(buf_row)@.len() == xsize * channels * depth(deep),
    ensures
        row_painted(
            deep,
            order,
            xsize,
            channels,
            plane,
            x as int,
            seq![v],
            old(buf_row)@,
            final(buf_row)@,
        ),
{
    let len = buf_row.len();
    proof {
        lemma_spot(deep, channels, xsize, x as int, plane as int, 0, 0, 0, 0);
        if deep {
            lemma_spot(deep, channels, xsize, x as int, plane as int, 1, 0, 0, 0);
        }
        assert(0 <= x * channels <= 0xffff * 0xff) by (nonlinear_arith)
            requires
                0 <= x <= 0xffff,
                0 <= channels <= 0xff,
        ;
    }
    let o = x as usize * channels as usize + plane as usize;
    if deep {
        let hi = (v / 256) as u8;
        let lo = (v % 256) as u8;
        match order {
            ByteOrder::Big => {
                buf_row[2 * o] = hi;
                buf_row[2 * o + 1] = lo;
            },
            ByteOrder::Little => {
                buf_row[2 * o] = lo;
                buf_row[2 * o + 1] = hi;
            },
        }
    } else {
        buf_row[o] = v as u8;
    }
    proof {
        let out = seq![v];
        assert forall|y: int, c: int, b: int|
            0 <= y < xsize && 0 <= c < channels && 0 <= b < depth(
                deep,
            ) implies buf_row@[#[trigger] spot(deep, channels, y, c, b)] == (if c == plane && x
            <= y < x + out.len() {
            stored(deep, order, out[y - x], b)
        } else {
            old(buf_row)@[spot(deep, channels, y, c, b)]
        }) by {
            lemma_spot(deep, channels, xsize, y, c, b, x as int, plane as int, 0);
            if deep {
                lemma_spot(deep, channels, xsize, y, c, b, x as int, plane as int, 1);
            }
        }
    }
}

/// Painting twice, the second time behind the first, is painting once.
pub proof fn lemma_painted_twice(
    deep: bool,
    order: ByteOrder,
    xsize: u16,
    channels: u8,
    plane: u8,
    from: int,
    first: Seq<u16>,
    second: Seq<u16>,
    s0: Seq<u8>,
    s1: Seq<u8>,
    s2: Seq<u8>,
)
    requires
        row_painted(deep, order, xsize, channels, plane, from, first, s0, s1),
        row_painted(deep, order, xsize, channels, plane, from + first.len(), second, s1, s2),
    ensures
        row_painted(deep, order, xsize, channels, plane, from, first + second, s0, s2),
{
    let out = first + second;
    assert forall|x: int, c: int, b: int|
        0 <= x < xsize && 0 <= c < channels && 0 <= b < depth(deep) implies s2[#[trigger] spot(
        deep,
        channels,
        x,
        c,
        b,
    )] == (if c == plane && from <= x < from + out.len() {
        stored(deep, order, out[x - from], b)
    } else {
        s0[spot(deep, channels, x, c, b)]
    }) by {
        let q = spot(deep, channels, x, c, b);
        assert(s1[q] == (if c == plane && from <= x < from + first.len() {
            stored(deep, order, first[x - from], b)
        } else {
            s0[q]
        }));
    }
}

/// Writes a sample into `count` pixels of a row, from pixel `from` on.
fn put_samples(
    deep: bool,
    buf_row: &mut [u8],
    xsize: u16,
    channels: u8,
    plane: u8,
    from: u16,
    count: u16,
    v: u16,
    order: ByteOrder,
)
    requires
        plane < channels,
        from + count <= xsize,
        old(buf_row)@.len() == xsize * channels * depth(deep),
    ensures
        row_painted(
            deep,
            order,
            xsize,
            channels,
            plane,
            from as int,
            Seq::new(count as nat, |i: int| v),
            old(buf_row)@,
            final(buf_row)@,
        ),
{
    let ghost before = buf_row@;
    let mut i: u16 = 0;
    while i < count
        invariant
            i <= count,
            plane < channels,
            from + count <= xsize,
            buf_row@.len() == xsize * channels * depth(deep),
            row_painted(
                deep,
                order,
                xsize,
                channels,
                plane,
                from as int,
                Seq::new(i as nat, |i: int| v),
                before,
                buf_row@,
            ),
        decreases count - i,
    {
        let ghost prev = buf_row@;
        put_sample(deep, buf_row, xsize, channels, plane, from + i, v, order);
        proof {
            let done = Seq::new(i as nat, |i: int| v);
            lemma_painted_twice(
                deep,
                order,
                xsize,
                channels,
                plane,
                from as int,
                done,
                seq![v],
                before,
                prev,
                buf_row@,
            );
            assert(done + seq![v] =~= Seq::new((i + 1) as nat, |i: int| v));
        }
        i += 1;
    }
}

/// Whether a row of the image has taken the samples that a step gives.
pub open spec fn step_painted(
    deep: bool,
    order: ByteOrder,
    xsize: u16,
    channels: u8,
    row: SgiRgbScanlineState,
    out: Seq<u16>,
    before: Seq<u8>,
    after: Seq<u8>,
) -> bool {
    row_painted(
        deep,
        order,
        xsize,
        channels,
        row.line.plane,
        row.machine.position as int,
        out,
        before,
        after,
    )
}

/// Takes a counter, or a sample.
fn apply_rle_word(
    deep: bool,
    row: &mut SgiRgbScanlineState,
    buf_row: &mut [u8],
    counter: u8,
    sample: u16,
    xsize: u16,
    channels: u8,
    order: ByteOrder,
) -> (r: Result<bool, bool>)
    requires
        xsize > 0,
        old(row).machine.wf(xsize),
        old(row).line.plane < channels,
        old(buf_row)@.len() == xsize * channels * depth(deep),
    ensures
        ({
            let (m, out, res) = take_word(old(row).machine, counter, sample, xsize);
            &&& r == res
            &&& *final(row) == (SgiRgbScanlineState { machine: m, ..*old(row) })
            &&& step_painted(
                deep,
                order,
                xsize,
                channels,
                *old(row),
                out,
                old(buf_row)@,
                final(buf_row)@,
            )
        }),
{
    let plane = row.line.plane;
    let position = row.machine.position;
    if row.machine.at_counter {
        row.machine.counter = counter;
        row.machine.at_counter = false;
        if counter % 128 == 0 {
            // End of line
            if position != xsize {
                return Err(false);
            }
            return Ok(true);
        }
        return Ok(false);
    }
    let count = (row.machine.counter % 128) as u16;
    if row.machine.counter < 128 {
        // Repeat the sample
        if count > xsize || position > xsize - count {
            return Err(true);
        }
        put_samples(deep, buf_row, xsize, channels, plane, position, count, sample, order);
        row.machine.position = position + count;
        row.machine.at_counter = true;
    } else {
        // Copy the sample
        if position > xsize - 1 {
            return Err(true);
        }
        put_sample(deep, buf_row, xsize, channels, plane, position, sample, order);
        row.machine.position = position + 1;
        row.machine.counter = row.machine.counter - 1;
        row.machine.at_counter = count == 1;
    }
    Ok(false)
}

/// Takes a byte of a scanline with samples of 16 bits.
///
/// Returns `Ok(true)` if this byte completes the end marker, `Err(true)` if the scanline has
/// too many samples, and `Err(false)` if it has too few.
pub fn apply_rle16_byte(
    row: &mut SgiRgbScanlineState,
    buf_row: &mut [u8],
    byte: u8,
    xsize: u16,
    channels: u8,
    order: ByteOrder,
) -> (r: Result<bool, bool>)
    requires
        xsize > 0,
        old(row).machine.wf(xsize),
        old(row).line.plane < channels,
        old(buf_row)@.len() == xsize * channels * 2,
    ensures
        ({
            let (m, out, res) = take_byte(true, old(row).machine, byte, xsize);
            &&& r == res
            &&& *final(row) == (SgiRgbScanlineState { machine: m, ..*old(row) })
            &&& step_painted(
                true,
                order,
                xsize,
                channels,
                *old(row),
                out,
                old(buf_row)@,
                final(buf_row)@,
            )
        }),
{
    if row.machine.high_byte {
        row.machine.data_char_hi = byte;
        row.machine.high_byte = false;
        return Ok(false);
    }
    let sample = be16_value(row.machine.data_char_hi, byte);
    let eor = apply_rle_word(true, row, buf_row, byte, sample, xsize, channels, order)?;
    row.machine.high_byte = true;
    Ok(eor)
}

/// Takes a byte of a scanline with samples of 8 bits.
///
/// Returns `Ok(true)` if this byte completes the end marker, `Err(true)` if the scanline has
/// too many samples, and `Err(false)` if it has too few.
pub fn apply_rle8_byte(
    row: &mut SgiRgbScanlineState,
    buf_row: &mut [u8],
    byte: u8,
    xsize: u16,
    channels: u8,
) -> (r: Result<bool, bool>)
    requires
        xsize > 0,
        old(row).machine.wf(xsize),
        old(row).line.plane < channels,
        old(buf_row)@.len() == xsize * channels,
    ensures
        ({
            let (m, out, res) = take_byte(false, old(row).machine, byte, xsize);
            &&& r == res
            &&& *final(row) == (SgiRgbScanlineState { machine: m, ..*old(row) })
            &&& forall|order: ByteOrder|
                #[trigger] step_painted(
                    false,
                    order,
                    xsize,
                    channels,
                    *old(row),
                    out,
                    old(buf_row)@,
                    final(buf_row)@,
                )
        }),
{
    apply_rle_word(false, row, buf_row, byte, byte as u16, xsize, channels, ByteOrder::Big)
}

/// What comes of taking several bytes: the machine, the samples, and the error at which this
/// stops, if there is one.
#[verifier::ext_equal]
pub struct Run {
    pub machine: RleMachine,
    pub samples: Seq<u16>,
    pub error: Option<SgiRgbDecodeError>,
}

/// The error of a step, where `expected` says whether the scanline ought to end with it.
pub open spec fn step_error(r: Result<bool, bool>, expected: bool) -> Option<SgiRgbDecodeError> {
    match r {
        Err(true) => Some(SgiRgbDecodeError::ScanlineOverflow),
        Err(false) => Some(SgiRgbDecodeError::ScanlineUnderflow),
        Ok(eor) => if eor == expected {
            None
        } else if eor {
            Some(SgiRgbDecodeError::ScanlineTooShort)
        } else {
            Some(SgiRgbDecodeError::ScanlineTooLong)
        },
    }
}

/// Takes several bytes, where `ending` says whether the scanline ought to end with the last
/// of them.
pub open spec fn run(deep: bool, m: RleMachine, bytes: Seq<u8>, ending: bool, xsize: u16) -> Run
    decreases bytes.len(),
{
    if bytes.len() == 0 {
        Run { machine: m, samples: Seq::empty(), error: None }
    } else {
        let (next, out, r) = take_byte(deep, m, bytes[0], xsize);
        let error = step_error(r, ending && bytes.len() == 1);
        if error is Some {
            Run { machine: next, samples: out, error }
        } else {
            let rest = run(deep, next, bytes.drop_first(), ending, xsize);
            Run { samples: out + rest.samples, ..rest }
        }
    }
}

/// A machine that has taken bytes without an error can take more, unless the scanline has
/// ended. It has decoded as many samples as its position says.
pub proof fn lemma_run(deep: bool, m: RleMachine, bytes: Seq<u8>, ending: bool, xsize: u16)
    requires
        m.wf(xsize),
    ensures
        ({
            let r = run(deep, m, bytes, ending, xsize);
            &&& r.machine.position == m.position + r.samples.len()
            &&& r.machine.position <= xsize
            &&& r.error is None && !(ending && bytes.len() > 0) ==> r.machine.wf(xsize)
            &&& r.error is None && ending && bytes.len() > 0 ==> r.machine.position == xsize
        }),
    decreases bytes.len(),
{
    if bytes.len() > 0 {
        let (next, out, r) = take_byte(deep, m, bytes[0], xsize);
        if step_error(r, ending && bytes.len() == 1) is None {
            if bytes.len() > 1 {
                lemma_run(deep, next, bytes.drop_first(), ending, xsize);
            } else {
                assert(bytes.drop_first() =~= Seq::empty());
            }
        }
    }
}

/// Taking bytes in two portions is taking them all at once, as long as the scanline does not
/// end with the first portion.
pub proof fn lemma_run_split(
    deep: bool,
    m: RleMachine,
    a: Seq<u8>,
    b: Seq<u8>,
    ending: bool,
    xsize: u16,
)
    requires
        ending ==> b.len() > 0,
    ensures
        ({
            let first = run(deep, m, a, false, xsize);
            let second = run(deep, first.machine, b, ending, xsize);
            run(deep, m, a + b, ending, xsize) == (if first.error is Some {
                first
            } else {
                Run { samples: first.samples + second.samples, ..second }
            })
        }),
    decreases a.len(),
{
    if a.len() == 0 {
        assert(a + b =~= b);
        let second = run(deep, m, b, ending, xsize);
        assert(Seq::<u16>::empty() + second.samples =~= second.samples);
    } else {
        let (next, out, r) = take_byte(deep, m, a[0], xsize);
        assert((a + b)[0] == a[0]);
        assert((a + b).drop_first() =~= a.drop_first() + b);
        if step_error(r, false) is None {
            lemma_run_split(deep, next, a.drop_first(), b, ending, xsize);
            let first = run(deep, next, a.drop_first(), false, xsize);
            let second = run(deep, first.machine, b, ending, xsize);
            assert((out + first.samples) + second.samples =~= out + (first.samples
                + second.samples));
        }
    }
}

/// Takes the bytes of `segment`, where `ending` says whether the scanline ends with them.
pub fn process_rle_segment<const DEEP: bool>(
    buf_row: &mut [u8],
    row: &mut SgiRgbScanlineState,
    xsize: u16,
    channels: u8,
    segment: &[u8],
    ending: bool,
    order: ByteOrder,
) -> (r: Result<(), SgiRgbDecodeError>)
    requires
        xsize > 0,
        old(row).machine.wf(xsize),
        old(row).line.plane < channels,
        old(buf_row)@.len() == xsize * channels * depth(DEEP),
    ensures
        ({
            let total = run(DEEP, old(row).machine, segment@, ending, xsize);
            &&& r == (match total.error {
                Some(e) => Err(e),
                None => Ok::<(), SgiRgbDecodeError>(()),
            })
            &&& *final(row) == (SgiRgbScanlineState { machine: total.machine, ..*old(row) })
            &&& step_painted(
                DEEP,
                order,
                xsize,
                channels,
                *old(row),
                total.samples,
                old(buf_row)@,
                final(buf_row)@,
            )
        }),
{
    let ghost total = run(DEEP, row.machine, segment@, ending, xsize);
    let ghost mut samples = Seq::<u16>::empty();
    let mut i: usize = 0;
    assert(segment@.skip(0) =~= segment@);
    assert(samples + total.samples =~= total.samples);
    while i < segment.len()
        invariant
            i <= segment@.len(),
            xsize > 0,
            i < segment@.len() || !ending ==> row.machine.wf(xsize),
            row.line == old(row).line,
            row.prec_active_line == old(row).prec_active_line,
            row.line.plane < channels,
            buf_row@.len() == old(buf_row)@.len() == xsize * channels * depth(DEEP),
            row.machine.position == old(row).machine.position + samples.len(),
            total == run(DEEP, old(row).machine, segment@, ending, xsize),
            ({
                let rest = run(DEEP, row.machine, segment@.skip(i as int), ending, xsize);
                total == (Run { samples: samples + rest.samples, ..rest })
            }),
            step_painted(
                DEEP,
                order,
                xsize,
                channels,
                *old(row),
                samples,
                old(buf_row)@,
                buf_row@,
            ),
        decreases segment@.len() - i,
    {
        let byte = segment[i];
        let ghost before = *row;
        let ghost prev = buf_row@;
        let ghost left = segment@.skip(i as int);
        let ghost (next, out, res) = take_byte(DEEP, row.machine, byte, xsize);
        assert(left[0] == byte);
        assert(left.drop_first() =~= segment@.skip(i + 1));
        let res = if DEEP {
            apply_rle16_byte(row, buf_row, byte, xsize, channels, order)
        } else {
            apply_rle8_byte(row, buf_row, byte, xsize, channels)
        };
        proof {
            assert(step_painted(DEEP, order, xsize, channels, before, out, prev, buf_row@));
            lemma_painted_twice(
                DEEP,
                order,
                xsize,
                channels,
                row.line.plane,
                old(row).machine.position as int,
                samples,
                out,
                old(buf_row)@,
                prev,
                buf_row@,
            );
            let rest = run(DEEP, next, segment@.skip(i + 1), ending, xsize);
            assert(samples + (out + rest.samples) =~= (samples + out) + rest.samples);
            samples = samples + out;
            lemma_run(DEEP, before.machine, seq![byte], false, xsize);
        }
        let eor = match res {
            Ok(eor) => eor,
            Err(true) => {
                return Err(SgiRgbDecodeError::ScanlineOverflow);
            },
            Err(false) => {
                return Err(SgiRgbDecodeError::ScanlineUnderflow);
            },
        };
        let expecting_end = i + 1 == segment.len() && ending;
        if eor != expecting_end {
            if eor {
                // The scanline ended earlier than expected
                return Err(SgiRgbDecodeError::ScanlineTooShort);
            } else {
                // At the end of the data there was no end marker
                return Err(SgiRgbDecodeError::ScanlineTooLong);
            }
        }
        i += 1;
    }
    assert(segment@.skip(i as int) =~= Seq::empty());
    assert(samples + Seq::<u16>::empty() =~= samples);
    Ok(())
}

} // verus!
