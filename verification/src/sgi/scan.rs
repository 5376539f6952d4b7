//! Decoding run-length encoded scanlines that may be anywhere in a file, in a single pass.
//!
//! Seeking from scanline to scanline can be slow. Instead, the file is read once from front to
//! back, in segments, and every byte goes to all scanlines that contain it. The scanlines are
//! kept in the order of their offsets. Those that contain the current file position make up a
//! linked list.

use vstd::prelude::*;

use super::rle;
use super::rle::{process_rle_segment, RleMachine, Scanline, SgiRgbScanlineState};
use super::{SgiRgbDecodeError, SgiRgbHeaderInfo};
use crate::types::ByteOrder;

verus! {

/// State associated with the processing of the encoded scanlines.
#[derive(Debug, Clone, Copy, PartialEq, Eq)]
pub struct SgiRgbDecodeState {
    /// Number of bytes of the file read so far, including the header.
    pub pos: u64,
    /// Greatest index of a scanline that contains `pos`, if there is one.
    pub max_active_row: Option<u32>,
    /// Index of the first scanline that `pos` has not reached.
    pub cursor: usize,
}

impl SgiRgbHeaderInfo {
    /// What holds of every header.
    pub open spec fn wf(self) -> bool {
        self.xsize > 0 && self.ysize > 0
    }

    /// The number of channels.
    pub open spec fn channels(self) -> u8 {
        self.color_type.channels() as u8
    }

    /// The number of bytes of a row of the image.
    pub open spec fn stride(self) -> int {
        self.xsize * self.channels() * rle::depth(self.color_type.is_deep())
    }

    /// The number of bytes of the image.
    pub open spec fn image_len(self) -> int {
        self.ysize * self.stride()
    }
}

/// The scanlines of a table.
pub open spec fn lines(table: Seq<SgiRgbScanlineState>) -> Seq<Scanline> {
    table.map_values(|r: SgiRgbScanlineState| r.line)
}

/// Where in the image byte `b` of pixel `x` of a scanline is.
pub open spec fn place(info: SgiRgbHeaderInfo, line: Scanline, x: int, b: int) -> int {
    (info.ysize - 1 - line.row_id) * info.stride() + rle::spot(
        info.color_type.is_deep(),
        info.channels(),
        x,
        line.plane as int,
        b,
    )
}

/// Whether no two scanlines belong to the same place, all belong into the image, none is
/// empty, and they are in the order of their offsets.
pub open spec fn lines_ok(lines: Seq<Scanline>, info: SgiRgbHeaderInfo) -> bool {
    &&& lines.len() < u32::MAX
    &&& forall|i: int|
        0 <= i < lines.len() ==> {
            &&& (#[trigger] lines[i]).row_id < info.ysize
            &&& lines[i].plane < info.channels()
            &&& lines[i].length > 0
        }
    &&& forall|i: int, j: int|
        0 <= i < j < lines.len() ==> {
            &&& (#[trigger] lines[i]).row_id != (#[trigger] lines[j]).row_id || lines[i].plane
                != lines[j].plane
            &&& lines[i].offset <= lines[j].offset
        }
}

/// Whether scanline `i` reaches beyond `pos`.
pub open spec fn active(lines: Seq<Scanline>, pos: int, i: int) -> bool {
    lines[i].end() > pos
}

/// The greatest `j` between `floor` and `k` such that scanline `j` reaches beyond `pos`, or
/// `floor` if there is none.
pub open spec fn pred(lines: Seq<Scanline>, pos: int, floor: int, k: int) -> int
    decreases k - floor,
{
    if k <= floor + 1 {
        floor
    } else if active(lines, pos, k - 1) {
        k - 1
    } else {
        pred(lines, pos, floor, k - 1)
    }
}

/// How the list refers to scanline `j`, or to none if `j` is negative.
pub open spec fn link(j: int) -> u32 {
    if j < 0 {
        u32::MAX
    } else {
        j as u32
    }
}

/// How the head of the list refers to scanline `j`, or to none if `j` is negative.
pub open spec fn head(j: int) -> Option<u32> {
    if j < 0 {
        None
    } else {
        Some(j as u32)
    }
}

/// Whether the list holds the scanlines below the cursor that reach beyond the current file
/// position, and all scanlines that do can take more bytes.
pub open spec fn linked(
    table: Seq<SgiRgbScanlineState>,
    info: SgiRgbHeaderInfo,
    state: SgiRgbDecodeState,
) -> bool {
    let ls = lines(table);
    &&& lines_ok(ls, info)
    &&& state.cursor <= table.len()
    &&& state.max_active_row == head(pred(ls, state.pos as int, -1, state.cursor as int))
    &&& forall|i: int|
        0 <= i < state.cursor && active(ls, state.pos as int, i)
            ==> (#[trigger] table[i]).prec_active_line == link(pred(ls, state.pos as int, -1, i))
    &&& forall|i: int|
        state.cursor <= i < table.len() ==> (#[trigger] table[i]).line.offset >= state.pos
    &&& forall|i: int|
        0 <= i < table.len() && active(ls, state.pos as int, i) ==> (
        #[trigger] table[i]).machine.wf(info.xsize)
}

/// What holds of a table and a state between segments.
pub open spec fn table_ok(
    table: Seq<SgiRgbScanlineState>,
    info: SgiRgbHeaderInfo,
    state: SgiRgbDecodeState,
) -> bool {
    &&& linked(table, info, state)
    &&& forall|i: int| 0 <= i < state.cursor ==> (#[trigger] table[i]).line.offset <= state.pos
}

/// What `pred` gives.
proof fn lemma_pred(lines: Seq<Scanline>, pos: int, floor: int, k: int)
    requires
        floor < k,
    ensures
        floor <= pred(lines, pos, floor, k) < k,
        pred(lines, pos, floor, k) > floor ==> active(lines, pos, pred(lines, pos, floor, k)),
        forall|j: int|
            pred(lines, pos, floor, k) < j < k ==> !#[trigger] active(lines, pos, j),
    decreases k - floor,
{
    if k > floor + 1 && !active(lines, pos, k - 1) {
        lemma_pred(lines, pos, floor, k - 1);
    }
}

/// What makes `pred` give `j`.
proof fn lemma_pred_is(lines: Seq<Scanline>, pos: int, floor: int, k: int, j: int)
    requires
        floor <= j < k,
        j == floor || active(lines, pos, j),
        forall|i: int| j < i < k ==> !#[trigger] active(lines, pos, i),
    ensures
        pred(lines, pos, floor, k) == j,
{
    lemma_pred(lines, pos, floor, k);
}

/// The part of a segment that belongs to a scanline. The segment starts at file position
/// `start`.
pub open spec fn piece(line: Scanline, start: int, segment: Seq<u8>) -> Seq<u8> {
    let lo = if line.offset > start {
        line.offset - start
    } else {
        0
    };
    let hi = if line.end() - start < segment.len() {
        line.end() - start
    } else {
        segment.len() as int
    };
    if lo < hi {
        segment.subrange(lo, hi)
    } else {
        Seq::empty()
    }
}

/// What comes of a segment for a scanline.
#[verifier::opaque]
pub open spec fn line_run(
    deep: bool,
    row: SgiRgbScanlineState,
    start: int,
    segment: Seq<u8>,
    xsize: u16,
) -> rle::Run {
    rle::run(
        deep,
        row.machine,
        piece(row.line, start, segment),
        row.line.end() <= start + segment.len(),
        xsize,
    )
}

/// Whether a table has a scanline for this row and channel.
pub open spec fn listed(table: Seq<SgiRgbScanlineState>, row_id: u16, plane: u8) -> bool {
    exists|i: int|
        0 <= i < table.len() && (#[trigger] table[i]).line.row_id == row_id && table[i].line.plane
            == plane
}

/// Whether every scanline of a table from index `from` on has taken its part of a segment, the
/// others have not, and the image has changed accordingly, and not elsewhere.
#[verifier::opaque]
pub open spec fn scanned(
    info: SgiRgbHeaderInfo,
    order: ByteOrder,
    start: int,
    segment: Seq<u8>,
    from: int,
    table0: Seq<SgiRgbScanlineState>,
    table1: Seq<SgiRgbScanlineState>,
    buf0: Seq<u8>,
    buf1: Seq<u8>,
) -> bool {
    let deep = info.color_type.is_deep();
    &&& table1.len() == table0.len()
    &&& buf1.len() == buf0.len()
    &&& lines(table1) == lines(table0)
    &&& forall|i: int|
        0 <= i < table0.len() ==> (#[trigger] table1[i]).machine == (if i >= from {
            line_run(deep, table0[i], start, segment, info.xsize).machine
        } else {
            table0[i].machine
        })
    &&& forall|i: int, x: int, b: int|
        0 <= i < table0.len() && 0 <= x < info.xsize && 0 <= b < rle::depth(deep)
            ==> buf1[#[trigger] place(info, table0[i].line, x, b)] == ({
            let out = line_run(deep, table0[i], start, segment, info.xsize).samples;
            let p = table0[i].machine.position;
            if i >= from && p <= x < p + out.len() {
                rle::stored(deep, order, out[x - p], b)
            } else {
                buf0[place(info, table0[i].line, x, b)]
            }
        })
    &&& forall|l: Scanline, x: int, b: int|
        l.row_id < info.ysize && l.plane < info.channels() && !listed(table0, l.row_id, l.plane)
            && 0 <= x < info.xsize && 0 <= b < rle::depth(deep) ==> buf1[#[trigger] place(
            info,
            l,
            x,
            b,
        )] == buf0[place(info, l, x, b)]
}

/// Whether the pixels of a scanline from `from` on have become `out`, and everything else is
/// as before.
pub open spec fn line_painted(
    info: SgiRgbHeaderInfo,
    order: ByteOrder,
    line: Scanline,
    from: int,
    out: Seq<u16>,
    before: Seq<u8>,
    after: Seq<u8>,
) -> bool {
    let deep = info.color_type.is_deep();
    &&& after.len() == before.len()
    &&& forall|l: Scanline, x: int, b: int|
        l.row_id < info.ysize && l.plane < info.channels() && 0 <= x < info.xsize && 0 <= b
            < rle::depth(deep) ==> after[#[trigger] place(info, l, x, b)] == (if l.row_id
            == line.row_id && l.plane == line.plane && from <= x < from + out.len() {
            rle::stored(deep, order, out[x - from], b)
        } else {
            before[place(info, l, x, b)]
        })
}

/// Places in different rows are apart, and all are in the image.
proof fn lemma_place(info: SgiRgbHeaderInfo, line: Scanline, x: int, b: int, row_id: int)
    requires
        line.row_id < info.ysize,
        line.plane < info.channels(),
        0 <= x < info.xsize,
        0 <= b < rle::depth(info.color_type.is_deep()),
        0 <= row_id < info.ysize,
    ensures
        ({
            let q = place(info, line, x, b);
            let start = (info.ysize - 1 - row_id) * info.stride();
            &&& 0 <= start
            &&& start + info.stride() <= info.image_len()
            &&& 0 <= q < info.image_len()
            &&& start <= q < start + info.stride() <==> line.row_id == row_id
        }),
{
    let stride = info.stride();
    let n = info.ysize as int;
    let k = info.ysize - 1 - row_id;
    let l = info.ysize - 1 - line.row_id;
    rle::lemma_spot(
        info.color_type.is_deep(),
        info.channels(),
        info.xsize,
        x,
        line.plane as int,
        b,
        x,
        line.plane as int,
        b,
    );
    assert(0 <= k * stride && k * stride + stride <= n * stride) by (nonlinear_arith)
        requires
            0 <= k,
            k + 1 <= n,
            stride > 0,
    ;
    assert(0 <= l * stride && l * stride + stride <= n * stride) by (nonlinear_arith)
        requires
            0 <= l,
            l + 1 <= n,
            stride > 0,
    ;
    if k < l {
        assert(k * stride + stride <= l * stride) by (nonlinear_arith)
            requires
                k + 1 <= l,
                stride > 0,
        ;
    } else if l < k {
        assert(l * stride + stride <= k * stride) by (nonlinear_arith)
            requires
                l + 1 <= k,
                stride > 0,
        ;
    }
}

/// Painting a row of the image is painting a part of the image.
pub proof fn lemma_line_painted(
    info: SgiRgbHeaderInfo,
    order: ByteOrder,
    line: Scanline,
    from: int,
    out: Seq<u16>,
    before: Seq<u8>,
    after: Seq<u8>,
)
    requires
        info.wf(),
        line.row_id < info.ysize,
        line.plane < info.channels(),
        before.len() == info.image_len(),
        after.len() == before.len(),
        ({
            let start = (info.ysize - 1 - line.row_id) * info.stride();
            let end = start + info.stride();
            &&& rle::row_painted(
                info.color_type.is_deep(),
                order,
                info.xsize,
                info.channels(),
                line.plane,
                from,
                out,
                before.subrange(start, end),
                after.subrange(start, end),
            )
            &&& forall|q: int|
                0 <= q < before.len() && !(start <= q < end) ==> #[trigger] after[q] == before[q]
        }),
    ensures
        line_painted(info, order, line, from, out, before, after),
{
    let deep = info.color_type.is_deep();
    let start = (info.ysize - 1 - line.row_id) * info.stride();
    let end = start + info.stride();
    let row0 = before.subrange(start, end);
    let row1 = after.subrange(start, end);
    assert forall|l: Scanline, x: int, b: int|
        l.row_id < info.ysize && l.plane < info.channels() && 0 <= x < info.xsize && 0 <= b
            < rle::depth(deep) implies after[#[trigger] place(info, l, x, b)] == (if l.row_id
        == line.row_id && l.plane == line.plane && from <= x < from + out.len() {
        rle::stored(deep, order, out[x - from], b)
    } else {
        before[place(info, l, x, b)]
    }) by {
        lemma_place(info, l, x, b, line.row_id as int);
        let q = place(info, l, x, b);
        if l.row_id == line.row_id {
            let sp = rle::spot(deep, info.channels(), x, l.plane as int, b);
            assert(row1[sp] == after[q]);
            assert(row0[sp] == before[q]);
        }
    }
}

/// Writes the sample of pixel `x` of a scanline.
pub fn put_pixel(
    buf: &mut [u8],
    info: SgiRgbHeaderInfo,
    line: Scanline,
    x: u16,
    v: u16,
    order: ByteOrder,
)
    requires
        info.wf(),
        old(buf)@.len() == info.image_len(),
        line.row_id < info.ysize,
        line.plane < info.channels(),
        x < info.xsize,
    ensures
        line_painted(info, order, line, x as int, seq![v], old(buf)@, final(buf)@),
{
    let ghost before = buf@;
    let channels = info.color_type.channel_count();
    let deep = info.color_type.bytes_per_pixel() > channels;
    let stride = row_stride(info);
    proof {
        lemma_place(info, line, 0, 0, line.row_id as int);
    }
    let len = buf.len();
    let y = (info.ysize - 1 - line.row_id) as usize;
    let start = y * stride;
    let ghost mut row0 = Seq::<u8>::empty();
    let ghost mut row1 = Seq::<u8>::empty();
    {
        let (_, tail) = buf.split_at_mut(start);
        let (buf_row, _) = tail.split_at_mut(stride);
        proof {
            row0 = buf_row@;
        }
        rle::put_sample(deep, buf_row, info.xsize, channels, line.plane, x, v, order);
        proof {
            row1 = buf_row@;
        }
    }
    proof {
        assert(row0 =~= before.subrange(start as int, start + stride));
        assert(row1 =~= buf@.subrange(start as int, start + stride));
        lemma_line_painted(info, order, line, x as int, seq![v], before, buf@);
    }
}

/// The number of bytes of a row of the image.
pub fn row_stride(info: SgiRgbHeaderInfo) -> (r: usize)
    ensures
        r == info.stride(),
        r <= 0xffff * 8,
{
    let channels = info.color_type.channel_count();
    assert(0 <= info.xsize * channels <= 0xffff * 4) by (nonlinear_arith)
        requires
            0 <= info.xsize <= 0xffff,
            0 <= channels <= 4,
    ;
    let row_samples = info.xsize as usize * channels as usize;
    if info.color_type.bytes_per_pixel() > channels {
        row_samples * 2
    } else {
        row_samples
    }
}

/// Processes the part of a segment that belongs to a scanline. The segment starts at file
/// position `start_pos`.
fn process_row<const DEEP: bool>(
    buf: &mut [u8],
    info: SgiRgbHeaderInfo,
    row: &mut SgiRgbScanlineState,
    start_pos: u64,
    segment: &[u8],
    order: ByteOrder,
) -> (r: Result<(), SgiRgbDecodeError>)
    requires
        info.wf(),
        DEEP == info.color_type.is_deep(),
        old(buf)@.len() == info.image_len(),
        old(row).line.row_id < info.ysize,
        old(row).line.plane < info.channels(),
        old(row).line.length > 0,
        old(row).machine.wf(info.xsize),
        old(row).line.offset <= start_pos + segment@.len() <= u64::MAX,
        old(row).line.end() > start_pos,
    ensures
        ({
            let total = line_run(DEEP, *old(row), start_pos as int, segment@, info.xsize);
            &&& r == (match total.error {
                Some(e) => Err(e),
                None => Ok::<(), SgiRgbDecodeError>(()),
            })
            &&& *final(row) == (SgiRgbScanlineState { machine: total.machine, ..*old(row) })
            &&& line_painted(
                info,
                order,
                old(row).line,
                old(row).machine.position as int,
                total.samples,
                old(buf)@,
                final(buf)@,
            )
        }),
{
    proof {
        reveal(line_run);
    }
    let ghost line = row.line;
    let ghost before = buf@;
    let ghost from = row.machine.position as int;
    let channels = info.color_type.channel_count();
    let end_pos = start_pos + segment.len() as u64;
    let row_end = row.line.offset as u64 + row.line.length as u64;
    let rs_start: usize = if row.line.offset as u64 > start_pos {
        (row.line.offset as u64 - start_pos) as usize
    } else {
        0
    };
    let rs_end: usize = if row_end <= end_pos {
        (row_end - start_pos) as usize
    } else {
        segment.len()
    };
    let has_ending = row_end <= end_pos;
    let row_input = vstd::slice::slice_subrange(segment, rs_start, rs_end);
    assert(row_input@ =~= piece(line, start_pos as int, segment@));

    let stride = row_stride(info);
    proof {
        lemma_place(info, line, 0, 0, line.row_id as int);
    }
    let len = buf.len();
    let y = (info.ysize - 1 - row.line.row_id) as usize;
    let start = y * stride;
    let ghost mut row0 = Seq::<u8>::empty();
    let ghost mut row1 = Seq::<u8>::empty();
    let r;
    {
        let (_, tail) = buf.split_at_mut(start);
        let (buf_row, _) = tail.split_at_mut(stride);
        proof {
            row0 = buf_row@;
        }
        r = process_rle_segment::<DEEP>(
            buf_row,
            row,
            info.xsize,
            channels,
            row_input,
            has_ending,
            order,
        );
        proof {
            row1 = buf_row@;
        }
    }
    proof {
        assert(row0 =~= before.subrange(start as int, start + stride));
        assert(row1 =~= buf@.subrange(start as int, start + stride));
        lemma_line_painted(
            info,
            order,
            line,
            from,
            line_run(DEEP, *old(row), start_pos as int, segment@, info.xsize).samples,
            before,
            buf@,
        );
    }
    r
}

/// Adds the scanlines that begin at or before `end_pos` to the list.
fn activate_rows(
    info: Ghost<SgiRgbHeaderInfo>,
    state: &mut SgiRgbDecodeState,
    rle_table: &mut [SgiRgbScanlineState],
    end_pos: u64,
)
    requires
        table_ok(old(rle_table)@, info@, *old(state)),
        old(state).pos <= end_pos,
    ensures
        linked(final(rle_table)@, info@, *final(state)),
        final(state).pos == old(state).pos,
        lines(final(rle_table)@) == lines(old(rle_table)@),
        forall|i: int|
            0 <= i < old(rle_table)@.len() ==> (#[trigger] final(rle_table)@[i]).machine == old(
                rle_table,
            )@[i].machine,
        forall|i: int|
            0 <= i < final(state).cursor ==> (#[trigger] old(rle_table)@[i]).line.offset
                <= end_pos,
        forall|i: int|
            final(state).cursor <= i < old(rle_table)@.len() ==> (#[trigger] old(
                rle_table,
            )@[i]).line.offset > end_pos,
        old(state).cursor <= final(state).cursor,
        forall|i: int|
            0 <= i < old(rle_table)@.len() && (i < old(state).cursor || i >= final(state).cursor)
                ==> #[trigger] final(rle_table)@[i] == old(rle_table)@[i],
{
    let ghost ls = lines(rle_table@);
    while state.cursor < rle_table.len() && rle_table[state.cursor].line.offset as u64 <= end_pos
        invariant
            linked(rle_table@, info@, *state),
            state.pos == old(state).pos,
            ls == lines(rle_table@),
            ls == lines(old(rle_table)@),
            rle_table@.len() == old(rle_table)@.len(),
            forall|i: int|
                0 <= i < old(rle_table)@.len() ==> (#[trigger] rle_table@[i]).machine == old(
                    rle_table,
                )@[i].machine,
            forall|i: int|
                0 <= i < state.cursor ==> (#[trigger] old(rle_table)@[i]).line.offset <= end_pos,
            old(state).cursor <= state.cursor,
            forall|i: int|
                0 <= i < old(rle_table)@.len() && (i < old(state).cursor || i >= state.cursor)
                    ==> #[trigger] rle_table@[i] == old(rle_table)@[i],
        decreases rle_table@.len() - state.cursor,
    {
        let ghost before = rle_table@;
        let ghost pos = state.pos as int;
        let c = state.cursor;
        assert(ls[c as int] == rle_table@[c as int].line);
        let mut row = rle_table[c];
        row.prec_active_line = match state.max_active_row {
            Some(r) => r,
            None => u32::MAX,
        };
        rle_table[c] = row;
        state.max_active_row = Some(c as u32);
        state.cursor = c + 1;
        proof {
            assert(lines(rle_table@) =~= ls);
            assert(active(ls, pos, c as int));
            lemma_pred_is(ls, pos, -1, c + 1, c as int);
            lemma_pred(ls, pos, -1, c as int);
            assert forall|i: int|
                0 <= i < state.cursor && active(ls, pos, i) implies (
            #[trigger] rle_table@[i]).prec_active_line == link(pred(ls, pos, -1, i)) by {
                if i < c {
                    assert(rle_table@[i] == before[i]);
                }
            }
        }
    }
    proof {
        assert forall|i: int| state.cursor <= i < old(rle_table)@.len() implies (#[trigger] old(
            rle_table,
        )@[i]).line.offset > end_pos by {
            assert(ls[i] == old(rle_table)@[i].line);
            assert(ls[state.cursor as int] == rle_table@[state.cursor as int].line);
        }
    }
}

/// A scanline that does not reach beyond the start of a segment, or begins behind it, takes
/// nothing of it.
proof fn lemma_piece_empty(line: Scanline, start: int, segment: Seq<u8>)
    requires
        line.end() <= start || line.offset >= start + segment.len(),
    ensures
        piece(line, start, segment) == Seq::<u8>::empty(),
{
}

/// The list once the scanline at `r` has been visited. Those that end with the segment, at
/// `end`, leave the list.
proof fn lemma_relink(ls: Seq<Scanline>, start: int, end: int, r: int, i: int)
    requires
        start <= end,
        0 <= r < i,
        active(ls, start, r),
    ensures
        ({
            let p = pred(ls, start, -1, r);
            let j = pred(ls, end, r, i);
            pred(ls, end, p, i) == (if j > r {
                j
            } else if active(ls, end, r) {
                r
            } else {
                p
            })
        }),
{
    let p = pred(ls, start, -1, r);
    let j = pred(ls, end, r, i);
    lemma_pred(ls, start, -1, r);
    lemma_pred(ls, end, r, i);
    assert forall|k: int| p < k < r implies !#[trigger] active(ls, end, k) by {
        assert(!active(ls, start, k));
    }
    if j > r {
        lemma_pred_is(ls, end, p, i, j);
    } else if active(ls, end, r) {
        lemma_pred_is(ls, end, p, i, r);
    } else {
        assert forall|k: int| p < k < i implies !#[trigger] active(ls, end, k) by {
            if k > r {
                assert(pred(ls, end, r, i) < k < i);
            }
        }
        lemma_pred_is(ls, end, p, i, p);
    }
}

/// Visiting one more scanline.
proof fn lemma_scanned_step(
    info: SgiRgbHeaderInfo,
    order: ByteOrder,
    start: int,
    segment: Seq<u8>,
    r: int,
    table0: Seq<SgiRgbScanlineState>,
    table1: Seq<SgiRgbScanlineState>,
    table2: Seq<SgiRgbScanlineState>,
    buf0: Seq<u8>,
    buf1: Seq<u8>,
    buf2: Seq<u8>,
)
    requires
        lines_ok(lines(table0), info),
        0 <= r < table0.len(),
        scanned(info, order, start, segment, r + 1, table0, table1, buf0, buf1),
        lines(table2) == lines(table0),
        table2.len() == table0.len(),
        forall|i: int|
            0 <= i < table0.len() && i != r ==> (#[trigger] table2[i]).machine
                == table1[i].machine,
        table2[r].machine == line_run(
            info.color_type.is_deep(),
            table0[r],
            start,
            segment,
            info.xsize,
        ).machine,
        line_painted(
            info,
            order,
            table0[r].line,
            table0[r].machine.position as int,
            line_run(info.color_type.is_deep(), table0[r], start, segment, info.xsize).samples,
            buf1,
            buf2,
        ),
    ensures
        scanned(info, order, start, segment, r, table0, table2, buf0, buf2),
{
    reveal(scanned);
    let deep = info.color_type.is_deep();
    let ls = lines(table0);
    assert forall|i: int, x: int, b: int|
        0 <= i < table0.len() && 0 <= x < info.xsize && 0 <= b < rle::depth(
            deep,
        ) implies buf2[#[trigger] place(info, table0[i].line, x, b)] == ({
        let out = line_run(deep, table0[i], start, segment, info.xsize).samples;
        let p = table0[i].machine.position;
        if i >= r && p <= x < p + out.len() {
            rle::stored(deep, order, out[x - p], b)
        } else {
            buf0[place(info, table0[i].line, x, b)]
        }
    }) by {
        assert(ls[i] == table0[i].line);
        assert(ls[r] == table0[r].line);
        let q = place(info, table0[i].line, x, b);
        if i != r {
            assert(ls[i].row_id != ls[r].row_id || ls[i].plane != ls[r].plane);
        }
    }
}

/// A segment changes nothing for scanlines that are not in the list.
proof fn lemma_scanned_skip(
    info: SgiRgbHeaderInfo,
    order: ByteOrder,
    start: int,
    segment: Seq<u8>,
    from: int,
    to: int,
    table0: Seq<SgiRgbScanlineState>,
    table1: Seq<SgiRgbScanlineState>,
    buf0: Seq<u8>,
    buf1: Seq<u8>,
)
    requires
        from <= to,
        scanned(info, order, start, segment, to, table0, table1, buf0, buf1),
        forall|i: int|
            0 <= i < table0.len() && from <= i < to ==> (#[trigger] table0[i]).line.end() <= start
                || table0[i].line.offset >= start + segment.len(),
    ensures
        scanned(info, order, start, segment, from, table0, table1, buf0, buf1),
        forall|i: int|
            0 <= i < table0.len() && from <= i < to ==> line_run(
                info.color_type.is_deep(),
                #[trigger] table0[i],
                start,
                segment,
                info.xsize,
            ).error is None,
{
    reveal(scanned);
    reveal(line_run);
    assert forall|i: int| 0 <= i < table0.len() && from <= i < to implies line_run(
        info.color_type.is_deep(),
        #[trigger] table0[i],
        start,
        segment,
        info.xsize,
    ) == (rle::Run {
        machine: table0[i].machine,
        samples: Seq::empty(),
        error: None,
    }) by {
        lemma_piece_empty(table0[i].line, start, segment);
    }
}

/// Whether scanline `i` fails with `e` in a segment, and none behind it fails.
pub open spec fn segment_fails(
    info: SgiRgbHeaderInfo,
    start: int,
    segment: Seq<u8>,
    table: Seq<SgiRgbScanlineState>,
    i: int,
    e: SgiRgbDecodeError,
) -> bool {
    let deep = info.color_type.is_deep();
    &&& 0 <= i < table.len()
    &&& line_run(deep, table[i], start, segment, info.xsize).error == Some(e)
    &&& forall|j: int|
        i < j < table.len() ==> line_run(
            deep,
            #[trigger] table[j],
            start,
            segment,
            info.xsize,
        ).error is None
}

/// Whether scanlines `from` and up do not fail in a segment.
pub open spec fn no_failure(
    info: SgiRgbHeaderInfo,
    start: int,
    segment: Seq<u8>,
    table: Seq<SgiRgbScanlineState>,
    from: int,
) -> bool {
    forall|i: int|
        0 <= i < table.len() && from <= i ==> line_run(
            info.color_type.is_deep(),
            #[trigger] table[i],
            start,
            segment,
            info.xsize,
        ).error is None
}

/// What holds of the list while its scanlines are visited, of which the next one is `r`, or
/// none if `r` is negative. Those behind `r` that end with the segment, at `end`, have left the
/// list. `prev_row` is the last one that was visited and is still in the list.
spec fn visiting(
    ls: Seq<Scanline>,
    start: int,
    end: int,
    r: int,
    prev_row: Option<u32>,
    state: SgiRgbDecodeState,
    table: Seq<SgiRgbScanlineState>,
) -> bool {
    let cursor = state.cursor as int;
    &&& start <= end
    &&& -1 <= r < cursor <= table.len() == ls.len()
    &&& ls == lines(table)
    &&& r >= 0 ==> active(ls, start, r)
    &&& forall|i: int|
        0 <= i <= r && active(ls, start, i) ==> (#[trigger] table[i]).prec_active_line == link(
            pred(ls, start, -1, i),
        )
    &&& forall|i: int|
        r < i < cursor && active(ls, end, i) ==> (#[trigger] table[i]).prec_active_line == link(
            pred(ls, end, r, i),
        )
    &&& state.max_active_row == head(pred(ls, end, r, cursor))
    &&& match prev_row {
        None => pred(ls, end, r, cursor) == r,
        Some(p) => {
            &&& r < p < cursor
            &&& active(ls, end, p as int)
            &&& pred(ls, end, r, p as int) == r
        },
    }
}

/// Takes scanline `row_index` out of the list if it ends with the segment, at `end_pos`, and
/// returns the one that is to be visited next.
fn unlink_row(
    state: &mut SgiRgbDecodeState,
    rle_table: &mut [SgiRgbScanlineState],
    row_index: u32,
    prev_row: Option<u32>,
    end_pos: u64,
    Ghost(start): Ghost<int>,
) -> (r: (u32, Option<u32>))
    requires
        old(rle_table)@.len() < u32::MAX,
        visiting(
            lines(old(rle_table)@),
            start,
            end_pos as int,
            row_index as int,
            prev_row,
            *old(state),
            old(rle_table)@,
        ),
    ensures
        ({
            let ls = lines(old(rle_table)@);
            let p = pred(ls, start, -1, row_index as int);
            &&& -1 <= p < row_index
            &&& r.0 == link(p)
            &&& visiting(ls, start, end_pos as int, p, r.1, *final(state), final(rle_table)@)
        }),
        final(state).cursor == old(state).cursor,
        final(state).pos == old(state).pos,
        final(rle_table)@.len() == old(rle_table)@.len(),
        forall|i: int|
            0 <= i < old(rle_table)@.len() ==> (#[trigger] final(rle_table)@[i]).machine == old(
                rle_table,
            )@[i].machine,
        forall|i: int|
            0 <= i < old(rle_table)@.len() && i != row_index && !(row_index < i < old(state).cursor
                && active(lines(old(rle_table)@), end_pos as int, i)) ==> (
            #[trigger] final(rle_table)@[i]).prec_active_line == old(
                rle_table,
            )@[i].prec_active_line,
        !active(lines(old(rle_table)@), end_pos as int, row_index as int)
            ==> final(rle_table)@[row_index as int].prec_active_line == u32::MAX,
{
    let ghost ls = lines(rle_table@);
    let ghost table1 = rle_table@;
    let ghost r = row_index as int;
    let ghost p = pred(ls, start, -1, r);
    let ghost end = end_pos as int;
    let ghost cursor = state.cursor as int;
    assert(ls[r] == table1[r].line);
    let mut row = rle_table[row_index as usize];
    let prev_active_row = row.prec_active_line;
    let mut prev_row = prev_row;
    let has_ending = row.line.offset as u64 + row.line.length as u64 <= end_pos;
    assert(has_ending == !active(ls, end, r));
    proof {
        lemma_pred(ls, start, -1, r);
        lemma_pred(ls, end, r, cursor);
        lemma_relink(ls, start, end, r, cursor);
        if let Some(above) = prev_row {
            lemma_pred(ls, end, r, above as int);
            lemma_relink(ls, start, end, r, above as int);
        }
    }
    if has_ending {
        row.prec_active_line = u32::MAX;
        rle_table[row_index as usize] = row;
        match prev_row {
            Some(above) => {
                let mut above_row = rle_table[above as usize];
                above_row.prec_active_line = prev_active_row;
                rle_table[above as usize] = above_row;
            },
            None => {
                state.max_active_row = if prev_active_row == u32::MAX {
                    None
                } else {
                    Some(prev_active_row)
                };
            },
        }
    } else {
        prev_row = Some(row_index);
    }
    proof {
        assert(lines(rle_table@) =~= ls);
        assert forall|i: int| p < i < cursor && active(ls, end, i) implies (
        #[trigger] rle_table@[i]).prec_active_line == link(pred(ls, end, p, i)) by {
            if i > r {
                lemma_pred(ls, end, r, i);
                lemma_relink(ls, start, end, r, i);
                assert(table1[i].prec_active_line == link(pred(ls, end, r, i)));
            } else {
                assert(i == r) by {
                    if i < r {
                        assert(!active(ls, start, i));
                    }
                }
                lemma_skip(ls, start, end, p, r);
            }
        }
        lemma_skip(ls, start, end, p, r);
        assert forall|i: int| 0 <= i <= p && active(ls, start, i) implies (
        #[trigger] rle_table@[i]).prec_active_line == link(pred(ls, start, -1, i)) by {
            assert(rle_table@[i] == table1[i]);
        }
    }
    (prev_active_row, prev_row)
}

/// Between neighbours in the list there is nothing that reaches beyond the end of a segment.
proof fn lemma_skip(ls: Seq<Scanline>, start: int, end: int, p: int, r: int)
    requires
        start <= end,
        0 <= r,
        p == pred(ls, start, -1, r),
    ensures
        pred(ls, end, p, r) == p,
{
    lemma_pred(ls, start, -1, r);
    assert forall|k: int| p < k < r implies !#[trigger] active(ls, end, k) by {
        assert(!active(ls, start, k));
    }
    lemma_pred_is(ls, end, p, r, p);
}

/// Before any scanline is visited. Those that are not in the list take nothing of the segment.
proof fn lemma_begin(
    info: SgiRgbHeaderInfo,
    order: ByteOrder,
    start: int,
    segment: Seq<u8>,
    cursor: int,
    table0: Seq<SgiRgbScanlineState>,
    table: Seq<SgiRgbScanlineState>,
    buf: Seq<u8>,
)
    requires
        0 <= cursor <= table0.len() == table.len(),
        lines(table) == lines(table0),
        forall|i: int|
            0 <= i < table0.len() ==> (#[trigger] table[i]).machine == table0[i].machine,
        forall|i: int|
            cursor <= i < table0.len() ==> (#[trigger] table0[i]).line.offset > start
                + segment.len(),
    ensures
        ({
            let first = pred(lines(table0), start, -1, cursor);
            &&& scanned(info, order, start, segment, first + 1, table0, table, buf, buf)
            &&& no_failure(info, start, segment, table0, first + 1)
        }),
{
    let ls = lines(table0);
    let n = table0.len() as int;
    let first = pred(ls, start, -1, cursor);
    lemma_pred(ls, start, -1, cursor);
    assert(scanned(info, order, start, segment, n, table0, table, buf, buf)) by {
        reveal(scanned);
    }
    assert forall|i: int| first < i < n implies (#[trigger] table0[i]).line.end() <= start
        || table0[i].line.offset >= start + segment.len() by {
        if i < cursor {
            assert(!active(ls, start, i));
            assert(ls[i] == table0[i].line);
        }
    }
    lemma_scanned_skip(info, order, start, segment, first + 1, n, table0, table, buf, buf);
}

/// A scanline that has not been visited is as before.
proof fn lemma_scanned_row(
    info: SgiRgbHeaderInfo,
    order: ByteOrder,
    start: int,
    segment: Seq<u8>,
    from: int,
    table0: Seq<SgiRgbScanlineState>,
    table1: Seq<SgiRgbScanlineState>,
    buf0: Seq<u8>,
    buf1: Seq<u8>,
    r: int,
)
    requires
        scanned(info, order, start, segment, from, table0, table1, buf0, buf1),
        0 <= r < from,
        r < table0.len(),
    ensures
        table1[r].machine == table0[r].machine,
        table1[r].line == table0[r].line,
        lines(table0)[r] == table0[r].line,
        line_run(info.color_type.is_deep(), table1[r], start, segment, info.xsize) == line_run(
            info.color_type.is_deep(),
            table0[r],
            start,
            segment,
            info.xsize,
        ),
{
    reveal(scanned);
    reveal(line_run);
    assert(lines(table1)[r] == table1[r].line);
}

/// The links of the list do not matter for what has been scanned.
proof fn lemma_scanned_relinked(
    info: SgiRgbHeaderInfo,
    order: ByteOrder,
    start: int,
    segment: Seq<u8>,
    from: int,
    table0: Seq<SgiRgbScanlineState>,
    table1: Seq<SgiRgbScanlineState>,
    table2: Seq<SgiRgbScanlineState>,
    buf0: Seq<u8>,
    buf1: Seq<u8>,
)
    requires
        scanned(info, order, start, segment, from, table0, table1, buf0, buf1),
        table2.len() == table1.len(),
        lines(table2) == lines(table1),
        forall|i: int|
            0 <= i < table1.len() ==> (#[trigger] table2[i]).machine == table1[i].machine,
    ensures
        scanned(info, order, start, segment, from, table0, table2, buf0, buf1),
{
    reveal(scanned);
}

/// After all scanlines have been visited, those that reach beyond the segment can take more.
proof fn lemma_finish(
    info: SgiRgbHeaderInfo,
    order: ByteOrder,
    start: int,
    segment: Seq<u8>,
    cursor: int,
    table0: Seq<SgiRgbScanlineState>,
    table: Seq<SgiRgbScanlineState>,
    buf0: Seq<u8>,
    buf: Seq<u8>,
)
    requires
        scanned(info, order, start, segment, 0, table0, table, buf0, buf),
        no_failure(info, start, segment, table0, 0),
        forall|i: int|
            0 <= i < table0.len() && active(lines(table0), start, i) ==> (
            #[trigger] table0[i]).machine.wf(info.xsize),
    ensures
        lines(table) == lines(table0),
        table.len() == table0.len(),
        forall|i: int|
            0 <= i < table.len() ==> (#[trigger] table[i]).line == table0[i].line,
        forall|i: int|
            0 <= i < table.len() && active(lines(table), start + segment.len(), i) ==> (
            #[trigger] table[i]).machine.wf(info.xsize),
{
    reveal(scanned);
    reveal(line_run);
    let ls = lines(table0);
    let deep = info.color_type.is_deep();
    assert forall|i: int| 0 <= i < table.len() implies (#[trigger] table[i]).line
        == table0[i].line by {
        assert(lines(table)[i] == table[i].line);
        assert(ls[i] == table0[i].line);
    }
    assert forall|i: int| 0 <= i < table.len() && active(ls, start + segment.len(), i) implies (
    #[trigger] table[i]).machine.wf(info.xsize) by {
        assert(ls[i] == table0[i].line);
        assert(active(ls, start, i));
        assert(line_run(deep, table0[i], start, segment, info.xsize).error is None);
        rle::lemma_run(
            deep,
            table0[i].machine,
            piece(table0[i].line, start, segment),
            false,
            info.xsize,
        );
    }
}

/// Whether the scanlines behind `r` that end with a segment, at `end`, refer to none, and those that
/// are not in the list refer to the same ones as before.
#[verifier::opaque]
spec fn links_kept(
    ls: Seq<Scanline>,
    start: int,
    end: int,
    r: int,
    cursor: int,
    table0: Seq<SgiRgbScanlineState>,
    table1: Seq<SgiRgbScanlineState>,
) -> bool {
    &&& table1.len() == table0.len()
    &&& forall|i: int|
        cursor <= i < table0.len() ==> (#[trigger] table1[i]).prec_active_line
            == table0[i].prec_active_line
    &&& forall|i: int|
        0 <= i < cursor && !active(ls, start, i) ==> (#[trigger] table1[i]).prec_active_line
            == table0[i].prec_active_line
    &&& forall|i: int|
        r < i < cursor && active(ls, start, i) && !active(ls, end, i) ==> (
        #[trigger] table1[i]).prec_active_line == u32::MAX
}

/// Before any scanline is visited.
proof fn lemma_links_begin(
    ls: Seq<Scanline>,
    start: int,
    end: int,
    from: int,
    cursor: int,
    table0: Seq<SgiRgbScanlineState>,
    table1: Seq<SgiRgbScanlineState>,
)
    requires
        0 <= from <= cursor <= table0.len() == table1.len(),
        ls == lines(table0),
        forall|i: int|
            0 <= i < table0.len() && (i < from || i >= cursor) ==> #[trigger] table1[i]
                == table0[i],
        forall|i: int|
            from <= i < table0.len() ==> (#[trigger] table0[i]).line.offset >= start
                && table0[i].line.length > 0,
    ensures
        links_kept(ls, start, end, pred(ls, start, -1, cursor), cursor, table0, table1),
{
    reveal(links_kept);
    lemma_pred(ls, start, -1, cursor);
    assert forall|i: int| 0 <= i < cursor && !active(ls, start, i) implies (
    #[trigger] table1[i]).prec_active_line == table0[i].prec_active_line by {
        assert(ls[i] == table0[i].line);
    }
}

/// Visiting one more scanline.
proof fn lemma_links_step(
    ls: Seq<Scanline>,
    start: int,
    end: int,
    r: int,
    cursor: int,
    table0: Seq<SgiRgbScanlineState>,
    table1: Seq<SgiRgbScanlineState>,
    table2: Seq<SgiRgbScanlineState>,
)
    requires
        start <= end,
        0 <= r < cursor <= table0.len(),
        active(ls, start, r),
        links_kept(ls, start, end, r, cursor, table0, table1),
        table2.len() == table1.len(),
        forall|i: int|
            0 <= i < table1.len() && i != r && !(r < i < cursor && active(ls, end, i)) ==> (
            #[trigger] table2[i]).prec_active_line == table1[i].prec_active_line,
        !active(ls, end, r) ==> table2[r].prec_active_line == u32::MAX,
    ensures
        links_kept(ls, start, end, pred(ls, start, -1, r), cursor, table0, table2),
{
    reveal(links_kept);
    lemma_pred(ls, start, -1, r);
}

/// What becomes of the links of the list once a segment from `start` on has been processed.
/// Scanlines refer to the preceding one that reaches beyond the new position. Those that have ended
/// with the segment refer to none. Those that have ended before, or have not begun, refer to what
/// they referred to before.
pub open spec fn links_read(
    start: int,
    next: SgiRgbDecodeState,
    table0: Seq<SgiRgbScanlineState>,
    table1: Seq<SgiRgbScanlineState>,
) -> bool {
    let ls = lines(table0);
    forall|i: int|
        0 <= i < table0.len() ==> (#[trigger] table1[i]).prec_active_line == (if i < next.cursor
            && active(ls, next.pos as int, i) {
            link(pred(ls, next.pos as int, -1, i))
        } else if i < next.cursor && active(ls, start, i) {
            u32::MAX
        } else {
            table0[i].prec_active_line
        })
}

/// After all scanlines have been visited.
proof fn lemma_links_end(
    start: int,
    end: int,
    next: SgiRgbDecodeState,
    table0: Seq<SgiRgbScanlineState>,
    table1: Seq<SgiRgbScanlineState>,
)
    requires
        start <= end == next.pos,
        next.cursor <= table0.len(),
        links_kept(lines(table0), start, end, -1, next.cursor as int, table0, table1),
        forall|i: int|
            0 <= i < next.cursor && active(lines(table0), end, i) ==> (
            #[trigger] table1[i]).prec_active_line == link(pred(lines(table0), end, -1, i)),
    ensures
        links_read(start, next, table0, table1),
{
    reveal(links_kept);
}

/// What comes of a segment in which no scanline fails.
pub open spec fn segment_read(
    info: SgiRgbHeaderInfo,
    order: ByteOrder,
    state: SgiRgbDecodeState,
    segment: Seq<u8>,
    table0: Seq<SgiRgbScanlineState>,
    buf0: Seq<u8>,
    next: SgiRgbDecodeState,
    done: bool,
    table1: Seq<SgiRgbScanlineState>,
    buf1: Seq<u8>,
) -> bool {
    &&& next.pos == state.pos + segment.len()
    &&& table_ok(table1, info, next)
    &&& forall|i: int|
        next.cursor <= i < table1.len() ==> (#[trigger] table1[i]).line.offset > next.pos
    &&& links_read(state.pos as int, next, table0, table1)
    &&& no_failure(info, state.pos as int, segment, table0, 0)
    &&& scanned(info, order, state.pos as int, segment, 0, table0, table1, buf0, buf1)
    &&& done == ((exists|i: int|
        0 <= i < table0.len() && (#[trigger] table0[i]).line.end() > state.pos) && (forall|i: int|
        0 <= i < table0.len() ==> (#[trigger] table0[i]).line.end() <= next.pos))
}

/// What comes of a segment.
pub open spec fn segment_outcome(
    info: SgiRgbHeaderInfo,
    order: ByteOrder,
    state: SgiRgbDecodeState,
    segment: Seq<u8>,
    table0: Seq<SgiRgbScanlineState>,
    buf0: Seq<u8>,
    r: Result<(SgiRgbDecodeState, bool), SgiRgbDecodeError>,
    table1: Seq<SgiRgbScanlineState>,
    buf1: Seq<u8>,
) -> bool {
    let start = state.pos as int;
    match r {
        Ok((next, done)) => segment_read(
            info,
            order,
            state,
            segment,
            table0,
            buf0,
            next,
            done,
            table1,
            buf1,
        ),
        Err(e) => exists|i: int|
            {
                &&& #[trigger] segment_fails(info, start, segment, table0, i, e)
                &&& scanned(info, order, start, segment, i, table0, table1, buf0, buf1)
            },
    }
}

/// Processes the next segment of the file. Returns the new state, and whether all scanlines
/// have ended with this segment.
///
/// The scanlines are visited from the last one to the first one. Where some fail, the error is
/// that of the last one of them.
pub fn process_data_segment<const DEEP: bool>(
    buf: &mut [u8],
    info: SgiRgbHeaderInfo,
    state: SgiRgbDecodeState,
    rle_table: &mut [SgiRgbScanlineState],
    segment: &[u8],
    order: ByteOrder,
) -> (r: Result<(SgiRgbDecodeState, bool), SgiRgbDecodeError>)
    requires
        info.wf(),
        DEEP == info.color_type.is_deep(),
        old(buf)@.len() == info.image_len(),
        table_ok(old(rle_table)@, info, state),
        state.pos + segment@.len() <= u64::MAX,
    ensures
        segment_outcome(
            info,
            order,
            state,
            segment@,
            old(rle_table)@,
            old(buf)@,
            r,
            final(rle_table)@,
            final(buf)@,
        ),
{
    let ghost table0 = rle_table@;
    let ghost buf0 = buf@;
    let ghost ls = lines(table0);
    let start_pos = state.pos;
    let end_pos = state.pos + segment.len() as u64;
    let ghost start = start_pos as int;
    let ghost end = end_pos as int;

    let mut current = state;
    activate_rows(Ghost(info), &mut current, rle_table, end_pos);
    let ghost cursor = current.cursor as int;
    let ghost first = pred(ls, start, -1, cursor);
    proof {
        lemma_begin(info, order, start, segment@, cursor, table0, rle_table@, buf0);
        lemma_pred(ls, start, -1, cursor);
        lemma_skip(ls, start, end, first, cursor);
        assert(forall|i: int| 0 <= i < table0.len() ==> ls[i] == (#[trigger] table0[i]).line);
        lemma_links_begin(
            ls,
            start,
            end,
            state.cursor as int,
            cursor,
            table0,
            rle_table@,
        );
    }
    let mut prev_row: Option<u32> = None;
    let mut row_index = match current.max_active_row {
        Some(r) => r,
        None => {
            // The list is empty: there is nothing to do
            current.pos = end_pos;
            proof {
                lemma_links_end(start, end, current, table0, rle_table@);
                assert forall|i: int| 0 <= i < cursor && active(ls, end, i) implies false by {
                    assert(!active(ls, start, i));
                }
                if forall|i: int| 0 <= i < table0.len() ==> (#[trigger] table0[i]).line.end()
                    <= end {
                    assert forall|i: int| 0 <= i < table0.len() implies !((
                    #[trigger] table0[i]).line.end() > start) by {
                        assert(!active(ls, start, i));
                    }
                }
            }
            return Ok((current, false));
        },
    };
    loop
        invariant_except_break
            0 <= row_index,
            visiting(ls, start, end, row_index as int, prev_row, current, rle_table@),
            scanned(
                info,
                order,
                start,
                segment@,
                row_index + 1,
                table0,
                rle_table@,
                buf0,
                buf@,
            ),
            no_failure(info, start, segment@, table0, row_index + 1),
            links_kept(ls, start, end, row_index as int, cursor, table0, rle_table@),
        invariant
            info.wf(),
            start == state.pos,
            DEEP == info.color_type.is_deep(),
            buf@.len() == info.image_len(),
            table0 == old(rle_table)@,
            buf0 == old(buf)@,
            ls == lines(table0),
            rle_table@.len() == table0.len(),
            lines_ok(ls, info),
            start == start_pos,
            end == end_pos,
            end_pos == start_pos + segment@.len(),
            cursor == current.cursor <= table0.len(),
            forall|i: int|
                0 <= i < table0.len() && active(ls, start, i) ==> (
                #[trigger] table0[i]).machine.wf(info.xsize),
            forall|i: int| 0 <= i < cursor ==> (#[trigger] table0[i]).line.offset <= end,
            forall|i: int| cursor <= i < table0.len() ==> (#[trigger] table0[i]).line.offset > end,
            0 <= first < cursor,
            active(ls, start, first),
        ensures
            cursor == current.cursor,
            rle_table@.len() == table0.len(),
            visiting(ls, start, end, -1, prev_row, current, rle_table@),
            scanned(info, order, start, segment@, 0, table0, rle_table@, buf0, buf@),
            no_failure(info, start, segment@, table0, 0),
            links_kept(ls, start, end, -1, cursor, table0, rle_table@),
        decreases row_index,
    {
        let ghost r = row_index as int;
        let ghost table1 = rle_table@;
        let ghost buf1 = buf@;
        let mut row = rle_table[row_index as usize];
        proof {
            lemma_scanned_row(
                info,
                order,
                start,
                segment@,
                r + 1,
                table0,
                table1,
                buf0,
                buf1,
                r,
            );
        }
        let res = process_row::<DEEP>(buf, info, &mut row, start_pos, segment, order);
        rle_table[row_index as usize] = row;
        proof {
            assert(lines(rle_table@) =~= ls);
            lemma_scanned_step(
                info,
                order,
                start,
                segment@,
                r,
                table0,
                table1,
                rle_table@,
                buf0,
                buf1,
                buf@,
            );
        }
        if let Err(e) = res {
            assert(segment_fails(info, start, segment@, table0, r, e));
            return Err(e);
        }
        let ghost table2 = rle_table@;
        let (next, prev) = unlink_row(
            &mut current,
            rle_table,
            row_index,
            prev_row,
            end_pos,
            Ghost(start),
        );
        prev_row = prev;
        proof {
            let p = pred(ls, start, -1, r);
            lemma_links_step(ls, start, end, r, cursor, table0, table1, rle_table@);
            lemma_scanned_relinked(
                info,
                order,
                start,
                segment@,
                r,
                table0,
                table2,
                rle_table@,
                buf0,
                buf@,
            );
            lemma_pred(ls, start, -1, r);
            assert forall|i: int| p < i < r implies (#[trigger] table0[i]).line.end() <= start by {
                assert(!active(ls, start, i));
                assert(ls[i] == table0[i].line);
            }
            lemma_scanned_skip(
                info,
                order,
                start,
                segment@,
                p + 1,
                r,
                table0,
                rle_table@,
                buf0,
                buf@,
            );
        }
        if next != u32::MAX {
            row_index = next;
        } else {
            break;
        }
    }
    current.pos = end_pos;
    let done = current.max_active_row.is_none() && current.cursor == rle_table.len();
    proof {
        lemma_finish(info, order, start, segment@, cursor, table0, rle_table@, buf0, buf@);
        lemma_links_end(start, end, current, table0, rle_table@);
        lemma_pred(ls, end, -1, cursor);
        assert(table0[first].line == ls[first]);
        if done {
            assert forall|i: int| 0 <= i < table0.len() implies (#[trigger] table0[i]).line.end()
                <= end by {
                assert(!active(ls, end, i));
                assert(ls[i] == table0[i].line);
            }
        } else if cursor < table0.len() {
            assert(table0[cursor].line.end() > end);
        } else {
            let j = pred(ls, end, -1, cursor);
            assert(active(ls, end, j));
            assert(table0[j].line == ls[j]);
        }
    }
    Ok((current, done))
}

} // verus!
