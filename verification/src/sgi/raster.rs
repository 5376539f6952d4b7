//! What the encoded scanlines of a file make of an image.

use vstd::prelude::*;

use super::rle;
use super::rle::{Scanline, SgiRgbScanlineState};
use super::scan;
use super::scan::{process_data_segment, SgiRgbDecodeState};
use super::{SgiRgbDecodeError, SgiRgbHeaderInfo};
use crate::source::ByteSource;
use crate::types::{ByteOrder, DecodingError, CodecError, IoFailure};

verus! {

/// The order in which scanlines are processed: by their offsets in the file, then by their
/// rows, then by their channels.
pub open spec fn sort_key(line: Scanline) -> int {
    line.offset * 0x1_0000_0000 + line.row_id * 0x1_0000 + line.plane
}

/// What comes of the bytes of `data` that belong to a scanline. `data` starts at file position
/// `start`.
pub open spec fn fresh_run(
    info: SgiRgbHeaderInfo,
    line: Scanline,
    start: int,
    data: Seq<u8>,
) -> rle::Run {
    let deep = info.color_type.is_deep();
    rle::run(
        deep,
        rle::fresh(deep),
        scan::piece(line, start, data),
        line.end() <= start + data.len(),
        info.xsize,
    )
}

/// Whether the image holds the samples that `data` gives for each scanline, and is otherwise
/// as before. For scanlines before `pivot`, only the first `c` bytes of `data` count.
#[verifier::opaque]
pub open spec fn painted(
    info: SgiRgbHeaderInfo,
    order: ByteOrder,
    lines: Seq<Scanline>,
    start: int,
    data: Seq<u8>,
    pivot: Option<Scanline>,
    c: int,
    before: Seq<u8>,
    after: Seq<u8>,
) -> bool {
    let deep = info.color_type.is_deep();
    &&& after.len() == before.len()
    &&& forall|l: Scanline, x: int, b: int|
        lines.contains(l) && 0 <= x < info.xsize && 0 <= b < rle::depth(deep)
            ==> after[#[trigger] scan::place(info, l, x, b)] == ({
            let out = fresh_run(
                info,
                l,
                start,
                if pivot matches Some(p) && sort_key(l) < sort_key(p) {
                    data.take(c)
                } else {
                    data
                },
            ).samples;
            if x < out.len() {
                rle::stored(deep, order, out[x], b)
            } else {
                before[scan::place(info, l, x, b)]
            }
        })
}

/// Whether `l` is the last scanline that fails.
pub open spec fn last_failing(
    info: SgiRgbHeaderInfo,
    lines: Seq<Scanline>,
    start: int,
    data: Seq<u8>,
    l: Scanline,
) -> bool {
    &&& lines.contains(l)
    &&& fresh_run(info, l, start, data).error is Some
    &&& forall|o: Scanline|
        #[trigger] lines.contains(o) && fresh_run(info, o, start, data).error is Some ==> sort_key(
            o,
        ) <= sort_key(l)
}

/// The lesser of two numbers.
pub open spec fn least(a: int, b: int) -> int {
    if a <= b {
        a
    } else {
        b
    }
}

/// What comes of decoding the scanlines from `data`, which starts at file position `start`, is
/// read `window` bytes at a time, and at whose end the reader fails with `fault`, if it does.
/// Reading stops with window number `k`, the first one
/// - in which a scanline fails; if several do, the last one of them counts;
/// - or with which all scanlines have ended;
/// - or which is empty, because there are no more bytes.
#[verifier::opaque]
pub open spec fn decoded<E>(
    info: SgiRgbHeaderInfo,
    order: ByteOrder,
    lines: Seq<Scanline>,
    start: int,
    data: Seq<u8>,
    window: int,
    fault: Option<E>,
    k: int,
    before: Seq<u8>,
    after: Seq<u8>,
    r: Result<(), CodecError<E>>,
) -> bool {
    let c0 = least(k * window, data.len() as int);
    let c1 = least(k * window + window, data.len() as int);
    let seen = data.take(c1);
    &&& k >= 0
    &&& forall|l: Scanline|
        #[trigger] lines.contains(l) ==> fresh_run(info, l, start, data.take(c0)).error is None
    &&& exists|l: Scanline| #[trigger] lines.contains(l) && l.end() > start + c0
    &&& if c0 == data.len() {
        &&& r == Err::<(), CodecError<E>>(
            match fault {
                Some(f) => CodecError::IoError(IoFailure::Reader(f)),
                None => CodecError::Decoding(DecodingError::Sgi(SgiRgbDecodeError::EarlyEOF)),
            },
        )
        &&& painted(info, order, lines, start, data, None, 0, before, after)
    } else if exists|l: Scanline|
        #[trigger] lines.contains(l) && fresh_run(info, l, start, seen).error is Some {
        exists|l: Scanline|
            {
                &&& #[trigger] last_failing(info, lines, start, seen, l)
                &&& r == Err::<(), CodecError<E>>(
                    CodecError::Decoding(
                        DecodingError::Sgi(fresh_run(info, l, start, seen).error->0),
                    ),
                )
                &&& painted(info, order, lines, start, seen, Some(l), c0, before, after)
            }
    } else {
        &&& forall|l: Scanline| #[trigger] lines.contains(l) ==> l.end() <= start + c1
        &&& r == Ok::<(), CodecError<E>>(())
        &&& painted(info, order, lines, start, seen, None, 0, before, after)
    }
}

/// What belongs to a scanline of two segments is what belongs to it of each.
pub proof fn lemma_piece_split(line: Scanline, start: int, a: Seq<u8>, b: Seq<u8>)
    ensures
        scan::piece(line, start, a + b) == scan::piece(line, start, a) + scan::piece(
            line,
            start + a.len(),
            b,
        ),
{
    assert(scan::piece(line, start, a + b) =~= scan::piece(line, start, a) + scan::piece(
        line,
        start + a.len(),
        b,
    ));
}

/// What two segments make of a scanline.
pub proof fn lemma_line_run_split(
    info: SgiRgbHeaderInfo,
    row0: SgiRgbScanlineState,
    row1: SgiRgbScanlineState,
    start: int,
    a: Seq<u8>,
    b: Seq<u8>,
)
    requires
        row1.line == row0.line,
        row0.line.length > 0,
        ({
            let first = scan::line_run(info.color_type.is_deep(), row0, start, a, info.xsize);
            first.error is None && row1.machine == first.machine
        }),
    ensures
        ({
            let deep = info.color_type.is_deep();
            let first = scan::line_run(deep, row0, start, a, info.xsize);
            let second = scan::line_run(deep, row1, start + a.len(), b, info.xsize);
            scan::line_run(deep, row0, start, a + b, info.xsize) == (rle::Run {
                samples: first.samples + second.samples,
                ..second
            })
        }),
{
    reveal(scan::line_run);
    let deep = info.color_type.is_deep();
    let line = row0.line;
    let pa = scan::piece(line, start, a);
    let pb = scan::piece(line, start + a.len(), b);
    lemma_piece_split(line, start, a, b);
    if line.end() <= start + a.len() {
        let first = scan::line_run(deep, row0, start, a, info.xsize);
        assert(pb =~= Seq::empty());
        assert(pa + pb =~= pa);
        assert(first.samples + Seq::<u16>::empty() =~= first.samples);
    } else {
        let ending = line.end() <= start + a.len() + b.len();
        rle::lemma_run_split(deep, row0.machine, pa, pb, ending, info.xsize);
    }
}

/// Scanning two segments, the second one for scanlines from `from` on.
pub proof fn lemma_scanned_twice(
    info: SgiRgbHeaderInfo,
    order: ByteOrder,
    start: int,
    a: Seq<u8>,
    b: Seq<u8>,
    from: int,
    t0: Seq<SgiRgbScanlineState>,
    t1: Seq<SgiRgbScanlineState>,
    t2: Seq<SgiRgbScanlineState>,
    b0: Seq<u8>,
    b1: Seq<u8>,
    b2: Seq<u8>,
    i: int,
)
    requires
        0 <= i < t0.len(),
        t0[i].line.length > 0,
        t0[i].line.end() <= start || t0[i].machine.wf(info.xsize),
        scan::scanned(info, order, start, a, 0, t0, t1, b0, b1),
        scan::no_failure(info, start, a, t0, 0),
        scan::scanned(info, order, start + a.len(), b, from, t1, t2, b1, b2),
    ensures
        t2[i].line == t0[i].line,
        ({
            let deep = info.color_type.is_deep();
            let seen = if i >= from {
                a + b
            } else {
                a
            };
            let r = scan::line_run(deep, t0[i], start, seen, info.xsize);
            let second = scan::line_run(deep, t1[i], start + a.len(), b, info.xsize);
            &&& t2[i].machine == r.machine
            &&& i >= from ==> r.error == second.error
            &&& forall|x: int, y: int|
                0 <= x < info.xsize && 0 <= y < rle::depth(deep) ==> b2[#[trigger] scan::place(
                    info,
                    t0[i].line,
                    x,
                    y,
                )] == ({
                    let p = t0[i].machine.position;
                    if p <= x < p + r.samples.len() {
                        rle::stored(deep, order, r.samples[x - p], y)
                    } else {
                        b0[scan::place(info, t0[i].line, x, y)]
                    }
                })
        }),
{
    reveal(scan::scanned);
    let deep = info.color_type.is_deep();
    let first = scan::line_run(deep, t0[i], start, a, info.xsize);
    let second = scan::line_run(deep, t1[i], start + a.len(), b, info.xsize);
    assert(scan::lines(t1)[i] == t1[i].line);
    assert(scan::lines(t0)[i] == t0[i].line);
    assert(scan::lines(t2)[i] == t2[i].line);
    assert(t1[i].machine == first.machine);
    lemma_line_run_split(info, t0[i], t1[i], start, a, b);
    assert(t1[i].machine.position == t0[i].machine.position + first.samples.len()) by {
        reveal(scan::line_run);
        if t0[i].line.end() > start {
            rle::lemma_run(
                deep,
                t0[i].machine,
                scan::piece(t0[i].line, start, a),
                t0[i].line.end() <= start + a.len(),
                info.xsize,
            );
        } else {
            assert(scan::piece(t0[i].line, start, a) =~= Seq::empty());
        }
    }
    let r = scan::line_run(
        deep,
        t0[i],
        start,
        if i >= from {
            a + b
        } else {
            a
        },
        info.xsize,
    );
    assert forall|x: int, y: int| 0 <= x < info.xsize && 0 <= y < rle::depth(deep) implies b2[
    #[trigger] scan::place(info, t0[i].line, x, y)] == ({
        let p = t0[i].machine.position;
        if p <= x < p + r.samples.len() {
            rle::stored(deep, order, r.samples[x - p], y)
        } else {
            b0[scan::place(info, t0[i].line, x, y)]
        }
    }) by {
        let q = scan::place(info, t0[i].line, x, y);
        assert(q == scan::place(info, t1[i].line, x, y));
        let p = t0[i].machine.position;
        assert(b1[q] == (if p <= x < p + first.samples.len() {
            rle::stored(deep, order, first.samples[x - p], y)
        } else {
            b0[q]
        }));
    }
}

/// What holds of a table before any scanline has taken a byte.
pub open spec fn fresh_table(
    table: Seq<SgiRgbScanlineState>,
    info: SgiRgbHeaderInfo,
    start: int,
) -> bool {
    &&& table.len() > 0
    &&& scan::lines_ok(scan::lines(table), info)
    &&& forall|i: int|
        0 <= i < table.len() ==> {
            &&& (#[trigger] table[i]).line.offset >= start
            &&& table[i].machine == rle::fresh(info.color_type.is_deep())
        }
    &&& forall|i: int, j: int|
        0 <= i < j < table.len() ==> sort_key((#[trigger] table[i]).line) < sort_key(
            (#[trigger] table[j]).line,
        )
}

/// The scanlines of a table are those at its indices.
proof fn lemma_lines(table: Seq<SgiRgbScanlineState>)
    ensures
        scan::lines(table).len() == table.len(),
        forall|i: int|
            0 <= i < table.len() ==> (#[trigger] table[i]).line == scan::lines(table)[i]
                && scan::lines(table).contains(table[i].line),
        forall|l: Scanline|
            #[trigger] scan::lines(table).contains(l) ==> exists|i: int|
                0 <= i < table.len() && (#[trigger] table[i]).line == l,
{
    let ls = scan::lines(table);
    assert forall|i: int| 0 <= i < table.len() implies (#[trigger] table[i]).line == ls[i]
        && ls.contains(table[i].line) by {
        assert(ls[i] == table[i].line);
    }
    assert forall|l: Scanline| #[trigger] ls.contains(l) implies exists|i: int|
        0 <= i < table.len() && (#[trigger] table[i]).line == l by {
        let i = choose|i: int| 0 <= i < ls.len() && ls[i] == l;
        assert(table[i].line == l);
    }
}

/// A scanline that has not taken a byte.
proof fn lemma_fresh_run(
    info: SgiRgbHeaderInfo,
    row: SgiRgbScanlineState,
    start: int,
    data: Seq<u8>,
)
    requires
        row.machine == rle::fresh(info.color_type.is_deep()),
    ensures
        scan::line_run(info.color_type.is_deep(), row, start, data, info.xsize) == fresh_run(
            info,
            row.line,
            start,
            data,
        ),
{
    reveal(scan::line_run);
}

/// The image after two segments, the second one for scanlines from `from` on.
proof fn lemma_painted(
    info: SgiRgbHeaderInfo,
    order: ByteOrder,
    start: int,
    a: Seq<u8>,
    b: Seq<u8>,
    from: int,
    t0: Seq<SgiRgbScanlineState>,
    t1: Seq<SgiRgbScanlineState>,
    t2: Seq<SgiRgbScanlineState>,
    b0: Seq<u8>,
    b1: Seq<u8>,
    b2: Seq<u8>,
)
    requires
        0 <= from < t0.len(),
        fresh_table(t0, info, start),
        scan::scanned(info, order, start, a, 0, t0, t1, b0, b1),
        scan::no_failure(info, start, a, t0, 0),
        scan::scanned(info, order, start + a.len(), b, from, t1, t2, b1, b2),
    ensures
        from == 0 ==> {
            &&& painted(info, order, scan::lines(t0), start, a + b, None, 0, b0, b2)
            &&& scan::scanned(info, order, start, a + b, 0, t0, t2, b0, b2)
        },
        painted(
            info,
            order,
            scan::lines(t0),
            start,
            a + b,
            Some(t0[from].line),
            a.len() as int,
            b0,
            b2,
        ),
        forall|i: int|
            from <= i < t0.len() ==> fresh_run(
                info,
                (#[trigger] t0[i]).line,
                start,
                a + b,
            ).error == scan::line_run(
                info.color_type.is_deep(),
                t1[i],
                start + a.len(),
                b,
                info.xsize,
            ).error,
{
    let deep = info.color_type.is_deep();
    let ls = scan::lines(t0);
    lemma_lines(t0);
    assert(b2.len() == b0.len() && t2.len() == t0.len() && t1.len() == t0.len() && scan::lines(t2)
        == ls) by {
        reveal(scan::scanned);
    }
    assert((a + b).take(a.len() as int) =~= a);
    assert forall|i: int| 0 <= i < t0.len() implies {
        let seen = if i >= from {
            a + b
        } else {
            a
        };
        let r = fresh_run(info, (#[trigger] t0[i]).line, start, seen);
        &&& t2[i].machine == r.machine
        &&& i >= from ==> r.error == scan::line_run(
            deep,
            t1[i],
            start + a.len(),
            b,
            info.xsize,
        ).error
        &&& forall|x: int, y: int|
            0 <= x < info.xsize && 0 <= y < rle::depth(deep) ==> b2[#[trigger] scan::place(
                info,
                t0[i].line,
                x,
                y,
            )] == (if x < r.samples.len() {
                rle::stored(deep, order, r.samples[x], y)
            } else {
                b0[scan::place(info, t0[i].line, x, y)]
            })
    } by {
        assert(ls[i].length > 0);
        lemma_scanned_twice(info, order, start, a, b, from, t0, t1, t2, b0, b1, b2, i);
        lemma_fresh_run(info, t0[i], start, a + b);
        lemma_fresh_run(info, t0[i], start, a);
    }
    reveal(painted);
    let pivot = t0[from].line;
    assert forall|l: Scanline, x: int, y: int|
        ls.contains(l) && 0 <= x < info.xsize && 0 <= y < rle::depth(deep) implies b2[
    #[trigger] scan::place(info, l, x, y)] == ({
        let out = fresh_run(
            info,
            l,
            start,
            if sort_key(l) < sort_key(pivot) {
                a
            } else {
                a + b
            },
        ).samples;
        if x < out.len() {
            rle::stored(deep, order, out[x], y)
        } else {
            b0[scan::place(info, l, x, y)]
        }
    }) by {
        let i = choose|i: int| 0 <= i < t0.len() && (#[trigger] t0[i]).line == l;
        if i < from {
            assert(sort_key(t0[i].line) < sort_key(t0[from].line));
        } else if i > from {
            assert(sort_key(t0[from].line) < sort_key(t0[i].line));
        }
    }
    if from == 0 {
        assert forall|l: Scanline| #[trigger] ls.contains(l) implies sort_key(l) >= sort_key(
            pivot,
        ) by {
            let i = choose|i: int| 0 <= i < t0.len() && (#[trigger] t0[i]).line == l;
            if i > 0 {
                assert(sort_key(t0[0].line) < sort_key(t0[i].line));
            }
        }
        assert(scan::scanned(info, order, start, a + b, 0, t0, t2, b0, b2)) by {
            reveal(scan::scanned);
            assert forall|i: int| 0 <= i < t0.len() implies scan::line_run(
                deep,
                #[trigger] t0[i],
                start,
                a + b,
                info.xsize,
            ) == fresh_run(info, t0[i].line, start, a + b) by {
                lemma_fresh_run(info, t0[i], start, a + b);
            }
        }
    }
}

/// Before anything has been scanned.
proof fn lemma_initial(
    info: SgiRgbHeaderInfo,
    order: ByteOrder,
    start: int,
    t0: Seq<SgiRgbScanlineState>,
    buf: Seq<u8>,
)
    ensures
        scan::scanned(info, order, start, Seq::empty(), 0, t0, t0, buf, buf),
        scan::no_failure(info, start, Seq::empty(), t0, 0),
{
    reveal(scan::scanned);
    reveal(scan::line_run);
    assert forall|i: int| 0 <= i < t0.len() implies scan::piece(
        (#[trigger] t0[i]).line,
        start,
        Seq::empty(),
    ) == Seq::<u8>::empty() by {}
}

/// The image once all bytes have been scanned.
proof fn lemma_at_end(
    info: SgiRgbHeaderInfo,
    order: ByteOrder,
    start: int,
    data: Seq<u8>,
    t0: Seq<SgiRgbScanlineState>,
    t1: Seq<SgiRgbScanlineState>,
    b0: Seq<u8>,
    b1: Seq<u8>,
)
    requires
        fresh_table(t0, info, start),
        scan::scanned(info, order, start, data.take(data.len() as int), 0, t0, t1, b0, b1),
        scan::no_failure(info, start, data.take(data.len() as int), t0, 0),
    ensures
        painted(info, order, scan::lines(t0), start, data, None, 0, b0, b1),
{
    assert(data.take(data.len() as int) =~= data);
    assert(data + Seq::<u8>::empty() =~= data);
    lemma_initial(info, order, start + data.len(), t1, b1);
    lemma_painted(info, order, start, data, Seq::empty(), 0, t0, t1, t1, b0, b1, b1);
}

/// The last scanline that fails in a segment is the last one that fails at all.
proof fn lemma_failed(
    info: SgiRgbHeaderInfo,
    order: ByteOrder,
    start: int,
    a: Seq<u8>,
    b: Seq<u8>,
    from: int,
    e: SgiRgbDecodeError,
    t0: Seq<SgiRgbScanlineState>,
    t1: Seq<SgiRgbScanlineState>,
    t2: Seq<SgiRgbScanlineState>,
    b0: Seq<u8>,
    b1: Seq<u8>,
    b2: Seq<u8>,
)
    requires
        fresh_table(t0, info, start),
        scan::scanned(info, order, start, a, 0, t0, t1, b0, b1),
        scan::no_failure(info, start, a, t0, 0),
        scan::segment_fails(info, start + a.len(), b, t1, from, e),
        scan::scanned(info, order, start + a.len(), b, from, t1, t2, b1, b2),
    ensures
        0 <= from < t0.len(),
        scan::lines(t0).contains(t0[from].line),
        last_failing(info, scan::lines(t0), start, a + b, t0[from].line),
        fresh_run(info, t0[from].line, start, a + b).error == Some(e),
        painted(
            info,
            order,
            scan::lines(t0),
            start,
            a + b,
            Some(t0[from].line),
            a.len() as int,
            b0,
            b2,
        ),
{
    let ls = scan::lines(t0);
    assert(t1.len() == t0.len()) by {
        reveal(scan::scanned);
    }
    lemma_lines(t0);
    lemma_painted(info, order, start, a, b, from, t0, t1, t2, b0, b1, b2);
    let l = t0[from].line;
    assert forall|o: Scanline|
        #[trigger] ls.contains(o) && fresh_run(info, o, start, a + b).error is Some implies sort_key(
        o,
    ) <= sort_key(l) by {
        let j = choose|i: int| 0 <= i < t0.len() && (#[trigger] t0[i]).line == o;
        if j > from {
            assert(scan::line_run(
                info.color_type.is_deep(),
                t1[j],
                start + a.len(),
                b,
                info.xsize,
            ).error is None);
        } else if j < from {
            assert(sort_key(t0[j].line) < sort_key(t0[from].line));
        }
    }
}

/// The image after a segment in which no scanline fails.
proof fn lemma_went_on(
    info: SgiRgbHeaderInfo,
    order: ByteOrder,
    start: int,
    a: Seq<u8>,
    b: Seq<u8>,
    t0: Seq<SgiRgbScanlineState>,
    t1: Seq<SgiRgbScanlineState>,
    t2: Seq<SgiRgbScanlineState>,
    b0: Seq<u8>,
    b1: Seq<u8>,
    b2: Seq<u8>,
)
    requires
        fresh_table(t0, info, start),
        scan::scanned(info, order, start, a, 0, t0, t1, b0, b1),
        scan::no_failure(info, start, a, t0, 0),
        scan::no_failure(info, start + a.len(), b, t1, 0),
        scan::scanned(info, order, start + a.len(), b, 0, t1, t2, b1, b2),
    ensures
        t1.len() == t0.len(),
        t2.len() == t0.len(),
        forall|i: int| 0 <= i < t0.len() ==> (#[trigger] t1[i]).line == t0[i].line,
        painted(info, order, scan::lines(t0), start, a + b, None, 0, b0, b2),
        scan::scanned(info, order, start, a + b, 0, t0, t2, b0, b2),
        scan::no_failure(info, start, a + b, t0, 0),
        forall|l: Scanline|
            #[trigger] scan::lines(t0).contains(l) ==> fresh_run(
                info,
                l,
                start,
                a + b,
            ).error is None,
{
    let ls = scan::lines(t0);
    assert(t1.len() == t0.len() && t2.len() == t0.len() && scan::lines(t1) == ls) by {
        reveal(scan::scanned);
    }
    lemma_lines(t0);
    lemma_lines(t1);
    lemma_painted(info, order, start, a, b, 0, t0, t1, t2, b0, b1, b2);
    assert forall|i: int| 0 <= i < t0.len() implies fresh_run(
        info,
        (#[trigger] t0[i]).line,
        start,
        a + b,
    ).error is None && scan::line_run(
        info.color_type.is_deep(),
        t0[i],
        start,
        a + b,
        info.xsize,
    ).error is None by {
        lemma_fresh_run(info, t0[i], start, a + b);
        assert(scan::line_run(
            info.color_type.is_deep(),
            t1[i],
            start + a.len(),
            b,
            info.xsize,
        ).error is None);
    }
    assert forall|l: Scanline| #[trigger] ls.contains(l) implies fresh_run(
        info,
        l,
        start,
        a + b,
    ).error is None by {
        let i = choose|i: int| 0 <= i < t0.len() && (#[trigger] t0[i]).line == l;
        assert(t0[i].line == l);
    }
}

/// Whether decoding has got to `c`, the start of window number `k`, without a failure.
spec fn reached(
    info: SgiRgbHeaderInfo,
    order: ByteOrder,
    start: int,
    data: Seq<u8>,
    window: int,
    k: int,
    c: int,
    t0: Seq<SgiRgbScanlineState>,
    t1: Seq<SgiRgbScanlineState>,
    b0: Seq<u8>,
    b1: Seq<u8>,
) -> bool {
    &&& fresh_table(t0, info, start)
    &&& window > 0
    &&& k >= 0
    &&& 0 <= c <= data.len()
    &&& c == least(k * window, data.len() as int)
    &&& scan::scanned(info, order, start, data.take(c), 0, t0, t1, b0, b1)
    &&& scan::no_failure(info, start, data.take(c), t0, 0)
    &&& exists|i: int| 0 <= i < t0.len() && (#[trigger] t0[i]).line.end() > start + c
}

/// What holds of the scanlines once a window has been reached.
proof fn lemma_reached(
    info: SgiRgbHeaderInfo,
    order: ByteOrder,
    start: int,
    data: Seq<u8>,
    window: int,
    k: int,
    c: int,
    t0: Seq<SgiRgbScanlineState>,
    t1: Seq<SgiRgbScanlineState>,
    b0: Seq<u8>,
    b1: Seq<u8>,
)
    requires
        reached(info, order, start, data, window, k, c, t0, t1, b0, b1),
    ensures
        t1.len() == t0.len(),
        forall|i: int| 0 <= i < t0.len() ==> (#[trigger] t1[i]).line == t0[i].line,
        forall|l: Scanline|
            #[trigger] scan::lines(t0).contains(l) ==> fresh_run(
                info,
                l,
                start,
                data.take(c),
            ).error is None,
        exists|l: Scanline|
            #[trigger] scan::lines(t0).contains(l) && l.end() > start + c,
{
    let ls = scan::lines(t0);
    lemma_lines(t0);
    lemma_lines(t1);
    assert(t1.len() == t0.len() && scan::lines(t1) == ls) by {
        reveal(scan::scanned);
    }
    assert forall|l: Scanline| #[trigger] ls.contains(l) implies fresh_run(
        info,
        l,
        start,
        data.take(c),
    ).error is None by {
        let i = choose|i: int| 0 <= i < t0.len() && (#[trigger] t0[i]).line == l;
        lemma_fresh_run(info, t0[i], start, data.take(c));
    }
    let i = choose|i: int| 0 <= i < t0.len() && (#[trigger] t0[i]).line.end() > start + c;
    assert(ls.contains(t0[i].line));
}

/// Decoding stops because there are no more bytes.
proof fn lemma_decoded_end<E>(
    info: SgiRgbHeaderInfo,
    order: ByteOrder,
    start: int,
    data: Seq<u8>,
    window: int,
    k: int,
    c: int,
    t0: Seq<SgiRgbScanlineState>,
    t1: Seq<SgiRgbScanlineState>,
    b0: Seq<u8>,
    b1: Seq<u8>,
    fault: Option<E>,
)
    requires
        reached(info, order, start, data, window, k, c, t0, t1, b0, b1),
        c == data.len(),
    ensures
        decoded(
            info,
            order,
            scan::lines(t0),
            start,
            data,
            window,
            fault,
            k,
            b0,
            b1,
            Err(
                match fault {
                    Some(f) => CodecError::IoError(IoFailure::Reader(f)),
                    None => CodecError::Decoding(DecodingError::Sgi(SgiRgbDecodeError::EarlyEOF)),
                },
            ),
        ),
{
    reveal(decoded);
    lemma_reached(info, order, start, data, window, k, c, t0, t1, b0, b1);
    lemma_at_end(info, order, start, data, t0, t1, b0, b1);
}

/// Decoding stops because a scanline fails.
proof fn lemma_decoded_failed<E>(
    info: SgiRgbHeaderInfo,
    order: ByteOrder,
    start: int,
    data: Seq<u8>,
    window: int,
    k: int,
    c: int,
    c1: int,
    from: int,
    e: SgiRgbDecodeError,
    t0: Seq<SgiRgbScanlineState>,
    t1: Seq<SgiRgbScanlineState>,
    t2: Seq<SgiRgbScanlineState>,
    b0: Seq<u8>,
    b1: Seq<u8>,
    b2: Seq<u8>,
    fault: Option<E>,
)
    requires
        reached(info, order, start, data, window, k, c, t0, t1, b0, b1),
        c < c1 == least(k * window + window, data.len() as int),
        scan::segment_fails(info, start + c, data.subrange(c, c1), t1, from, e),
        scan::scanned(info, order, start + c, data.subrange(c, c1), from, t1, t2, b1, b2),
    ensures
        decoded(
            info,
            order,
            scan::lines(t0),
            start,
            data,
            window,
            fault,
            k,
            b0,
            b2,
            Err(CodecError::Decoding(DecodingError::Sgi(e))),
        ),
{
    reveal(decoded);
    let seen = data.take(c1);
    lemma_reached(info, order, start, data, window, k, c, t0, t1, b0, b1);
    assert(data.take(c) + data.subrange(c, c1) =~= seen);
    lemma_failed(
        info,
        order,
        start,
        data.take(c),
        data.subrange(c, c1),
        from,
        e,
        t0,
        t1,
        t2,
        b0,
        b1,
        b2,
    );
    assert(last_failing(info, scan::lines(t0), start, seen, t0[from].line));
}

/// Decoding goes on, or stops because all scanlines have ended.
proof fn lemma_decoded_next<E>(
    info: SgiRgbHeaderInfo,
    order: ByteOrder,
    start: int,
    data: Seq<u8>,
    window: int,
    k: int,
    c: int,
    c1: int,
    t0: Seq<SgiRgbScanlineState>,
    t1: Seq<SgiRgbScanlineState>,
    t2: Seq<SgiRgbScanlineState>,
    b0: Seq<u8>,
    b1: Seq<u8>,
    b2: Seq<u8>,
    fault: Option<E>,
    done: bool,
)
    requires
        reached(info, order, start, data, window, k, c, t0, t1, b0, b1),
        c < c1 == least(k * window + window, data.len() as int),
        scan::no_failure(info, start + c, data.subrange(c, c1), t1, 0),
        scan::scanned(info, order, start + c, data.subrange(c, c1), 0, t1, t2, b1, b2),
        done == ((exists|i: int| 0 <= i < t1.len() && (#[trigger] t1[i]).line.end() > start + c)
            && (forall|i: int|
            0 <= i < t1.len() ==> (#[trigger] t1[i]).line.end() <= start + c1)),
    ensures
        done ==> decoded(
            info,
            order,
            scan::lines(t0),
            start,
            data,
            window,
            fault,
            k,
            b0,
            b2,
            Ok(()),
        ),
        !done ==> reached(info, order, start, data, window, k + 1, c1, t0, t2, b0, b2),
        b2.len() == b1.len(),
{
    assert(b2.len() == b1.len()) by {
        reveal(scan::scanned);
    }
    let ls = scan::lines(t0);
    let seen = data.take(c1);
    lemma_reached(info, order, start, data, window, k, c, t0, t1, b0, b1);
    lemma_lines(t0);
    assert(data.take(c) + data.subrange(c, c1) =~= seen);
    lemma_went_on(
        info,
        order,
        start,
        data.take(c),
        data.subrange(c, c1),
        t0,
        t1,
        t2,
        b0,
        b1,
        b2,
    );
    let i = choose|i: int| 0 <= i < t0.len() && (#[trigger] t0[i]).line.end() > start + c;
    assert(t1[i].line.end() > start + c);
    if done {
        reveal(decoded);
        assert forall|l: Scanline| #[trigger] ls.contains(l) implies l.end() <= start + c1 by {
            let i = choose|i: int| 0 <= i < t0.len() && (#[trigger] t0[i]).line == l;
            assert(t1[i].line == t0[i].line);
        }
    } else {
        assert((k + 1) * window == k * window + window) by (nonlinear_arith);
        let j = choose|i: int| 0 <= i < t1.len() && (#[trigger] t1[i]).line.end() > start + c1;
        assert(t0[j].line.end() > start + c1);
    }
}

/// The reader once decoding has stopped with window number `k`.
pub open spec fn reader_after<E>(reader: ByteSource<E>, k: int) -> ByteSource<E> {
    let len = reader.rest().len() as int;
    let c = least(k * reader.window, len);
    if c == len {
        reader.exhausted()
    } else {
        reader.advanced(c)
    }
}

/// Decodes the scanlines of a table from what the reader has to give. The table is in the order
/// in which scanlines are processed.
pub fn scan_rows<E>(
    reader: &mut ByteSource<E>,
    info: SgiRgbHeaderInfo,
    rle_table: Vec<SgiRgbScanlineState>,
    start: u64,
    buf: &mut [u8],
    order: ByteOrder,
) -> (r: Result<(), CodecError<E>>)
    requires
        old(reader).wf(),
        info.wf(),
        old(buf)@.len() == info.image_len(),
        fresh_table(rle_table@, info, start as int),
        start <= u32::MAX,
    ensures
        final(reader).wf(),
        exists|k: int|
            {
                &&& #[trigger] decoded(
                    info,
                    order,
                    scan::lines(rle_table@),
                    start as int,
                    old(reader).rest(),
                    old(reader).window as int,
                    old(reader).fault,
                    k,
                    old(buf)@,
                    final(buf)@,
                    r,
                )
                &&& *final(reader) == reader_after(*old(reader), k)
            },
{
    let ghost t0 = rle_table@;
    let ghost ls = scan::lines(t0);
    let ghost data = reader.rest();
    let ghost len = data.len() as int;
    let ghost w = reader.window as int;
    let ghost b0 = buf@;
    let ghost mut k: int = 0;
    let ghost mut c: int = 0;
    let deep = info.color_type.bytes_per_pixel() > info.color_type.channel_count();
    let mut table = rle_table;
    let mut state = SgiRgbDecodeState { cursor: 0, max_active_row: None, pos: start };
    proof {
        assert(data.take(0) =~= Seq::empty());
        lemma_initial(info, order, start as int, t0, b0);
        assert forall|i: int| 0 <= i < t0.len() implies (#[trigger] t0[i]).machine.wf(
            info.xsize,
        ) by {}
        assert(ls[0] == t0[0].line);
        assert(t0[0].line.end() > start);
        assert(0 * w == 0) by (nonlinear_arith);
    }
    loop
        invariant
            reader.wf(),
            info.wf(),
            deep == info.color_type.is_deep(),
            buf@.len() == info.image_len(),
            t0 == rle_table@,
            ls == scan::lines(t0),
            start <= u32::MAX,
            data == old(reader).rest(),
            b0 == old(buf)@,
            w == old(reader).window,
            len == data.len() <= isize::MAX,
            *reader == old(reader).advanced(c),
            old(reader).wf(),
            state.pos == start + c,
            scan::table_ok(table@, info, state),
            reached(info, order, start as int, data, w, k, c, t0, table@, b0, buf@),
        decreases len - c,
    {
        assert(reader.rest() =~= data.skip(c));
        let n = match reader.fill_buf() {
            Ok(n) => n,
            Err(e) => {
                proof {
                    lemma_decoded_end(
                        info,
                        order,
                        start as int,
                        data,
                        w,
                        k,
                        c,
                        t0,
                        table@,
                        b0,
                        buf@,
                        old(reader).fault,
                    );
                }
                return Err(CodecError::IoError(e));
            },
        };
        if n == 0 {
            proof {
                lemma_decoded_end(
                    info,
                    order,
                    start as int,
                    data,
                    w,
                    k,
                    c,
                    t0,
                    table@,
                    b0,
                    buf@,
                    old(reader).fault,
                );
            }
            return Err(CodecError::Decoding(DecodingError::Sgi(SgiRgbDecodeError::EarlyEOF)));
        }
        let segment = vstd::slice::slice_subrange(
            reader.data.as_slice(),
            reader.pos,
            reader.pos + n,
        );
        let ghost t1 = table@;
        let ghost b1 = buf@;
        let ghost c1 = c + n;
        assert(segment@ =~= data.subrange(c, c1));
        let res = if deep {
            process_data_segment::<true>(buf, info, state, table.as_mut_slice(), segment, order)
        } else {
            process_data_segment::<false>(buf, info, state, table.as_mut_slice(), segment, order)
        };
        match res {
            Err(e) => {
                proof {
                    let from = choose|i: int|
                        {
                            &&& #[trigger] scan::segment_fails(
                                info,
                                start + c,
                                segment@,
                                t1,
                                i,
                                e,
                            )
                            &&& scan::scanned(
                                info,
                                order,
                                start + c,
                                segment@,
                                i,
                                t1,
                                table@,
                                b1,
                                buf@,
                            )
                        };
                    lemma_decoded_failed(
                        info,
                        order,
                        start as int,
                        data,
                        w,
                        k,
                        c,
                        c1,
                        from,
                        e,
                        t0,
                        t1,
                        table@,
                        b0,
                        b1,
                        buf@,
                        old(reader).fault,
                    );
                }
                return Err(CodecError::Decoding(DecodingError::Sgi(e)));
            },
            Ok((next, done)) => {
                proof {
                    lemma_decoded_next(
                        info,
                        order,
                        start as int,
                        data,
                        w,
                        k,
                        c,
                        c1,
                        t0,
                        t1,
                        table@,
                        b0,
                        b1,
                        buf@,
                        old(reader).fault,
                        done,
                    );
                }
                if done {
                    return Ok(());
                }
                state = next;
                reader.consume(n);
                proof {
                    k = k + 1;
                    c = c1;
                }
            },
        }
    }
}

/// What is decoded does not depend on the order in which scanlines are listed.
pub proof fn lemma_decoded_any_order<E>(
    info: SgiRgbHeaderInfo,
    order: ByteOrder,
    ls: Seq<Scanline>,
    others: Seq<Scanline>,
    start: int,
    data: Seq<u8>,
    window: int,
    fault: Option<E>,
    k: int,
    before: Seq<u8>,
    after: Seq<u8>,
    r: Result<(), CodecError<E>>,
)
    requires
        decoded(info, order, ls, start, data, window, fault, k, before, after, r),
        forall|l: Scanline| #[trigger] ls.contains(l) <==> others.contains(l),
    ensures
        decoded(info, order, others, start, data, window, fault, k, before, after, r),
{
    reveal(decoded);
    reveal(painted);
    let c0 = least(k * window, data.len() as int);
    let c1 = least(k * window + window, data.len() as int);
    let seen = data.take(c1);
    assert forall|l: Scanline| #[trigger] others.contains(l) implies ls.contains(l) by {}
    let live = choose|l: Scanline|
        #[trigger] ls.contains(l) && l.end() > start + c0;
    assert(others.contains(live));
    if exists|l: Scanline|
        #[trigger] ls.contains(l) && fresh_run(info, l, start, seen).error is Some {
        let f = choose|l: Scanline|
            #[trigger] ls.contains(l) && fresh_run(info, l, start, seen).error is Some;
        assert(others.contains(f));
    }
    if exists|l: Scanline|
        {
            &&& #[trigger] last_failing(info, ls, start, seen, l)
            &&& r == Err::<(), CodecError<E>>(
                CodecError::Decoding(
                    DecodingError::Sgi(fresh_run(info, l, start, seen).error->0),
                ),
            )
            &&& painted(info, order, ls, start, seen, Some(l), c0, before, after)
        } {
        let l = choose|l: Scanline|
            {
                &&& #[trigger] last_failing(info, ls, start, seen, l)
                &&& r == Err::<(), CodecError<E>>(
                    CodecError::Decoding(
                        DecodingError::Sgi(fresh_run(info, l, start, seen).error->0),
                    ),
                )
                &&& painted(info, order, ls, start, seen, Some(l), c0, before, after)
            };
        assert(others.contains(l));
        assert(last_failing(info, others, start, seen, l));
        assert(painted(info, order, others, start, seen, Some(l), c0, before, after));
    }
}

} // verus!
