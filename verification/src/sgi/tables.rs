//! The tables that say where in a file the encoded scanlines are.
//!
//! Two tables follow the header: one with the offset of every scanline, and one with its
//! length. Both list the rows of the first channel from the bottom up, then those of the
//! second channel, and so on.

use vstd::prelude::*;

use super::raster;
use super::raster::scan_rows;
use super::rle;
use super::rle::{RleMachine, Scanline, SgiRgbScanlineState};
use super::scan;
use super::{SgiRgbDecodeError, SgiRgbHeaderInfo, HEADER_FULL_LENGTH};
use crate::source;
use crate::source::ByteSource;
use crate::types::{ByteOrder, DecodingError, CodecError};

verus! {

impl SgiRgbHeaderInfo {
    /// The number of entries of each table.
    pub open spec fn entries(self) -> int {
        self.channels() * self.ysize
    }

    /// The file position behind the tables.
    pub open spec fn data_start(self) -> int {
        HEADER_FULL_LENGTH + 8 * self.entries()
    }
}

/// What entry `i` of the tables says. The tables are the first bytes of `tables`.
pub open spec fn table_line(tables: Seq<u8>, info: SgiRgbHeaderInfo, i: int) -> Scanline {
    Scanline {
        offset: source::be32(tables, 4 * i),
        length: source::be32(tables, 4 * (info.entries() + i)),
        row_id: (i % info.ysize as int) as u16,
        plane: (i / info.ysize as int) as u8,
    }
}

/// What the tables say.
pub open spec fn table_lines(tables: Seq<u8>, info: SgiRgbHeaderInfo) -> Seq<Scanline> {
    Seq::new(info.entries() as nat, |i: int| table_line(tables, info, i))
}

/// Whether a scanline is empty, or is not in the part of the file that holds image data.
pub open spec fn is_bad(line: Scanline, info: SgiRgbHeaderInfo) -> bool {
    line.offset < info.data_start() || line.length == 0
}

/// The first of the entries from `i` up to `n` that is bad, if there is one.
pub open spec fn first_bad(tables: Seq<u8>, info: SgiRgbHeaderInfo, i: int, n: int) -> Option<int>
    decreases n - i,
{
    if i >= n {
        None
    } else if is_bad(table_line(tables, info, i), info) {
        Some(i)
    } else {
        first_bad(tables, info, i + 1, n)
    }
}

/// The number of lengths that can be read.
pub open spec fn readable(rest: Seq<u8>, info: SgiRgbHeaderInfo) -> int {
    let n = info.entries();
    if rest.len() < 4 * n {
        0
    } else if rest.len() >= 8 * n {
        n
    } else {
        (rest.len() - 4 * n) / 4
    }
}

/// What comes of reading the tables: the error, if there is one, and the reader behind what was
/// read. Every length is checked when it has been read.
pub open spec fn tables_outcome<E>(reader: ByteSource<E>, info: SgiRgbHeaderInfo) -> (
    Option<CodecError<E>>,
    ByteSource<E>,
) {
    let rest = reader.rest();
    let n = info.entries();
    match first_bad(rest, info, 0, readable(rest, info)) {
        Some(i) => {
            let line = table_line(rest, info, i);
            (
                Some(
                    CodecError::Decoding(
                        DecodingError::Sgi(
                            SgiRgbDecodeError::RLERowInvalid(line.offset, line.length),
                        ),
                    ),
                ),
                reader.advanced(4 * n + 4 * (i + 1)),
            )
        },
        None => if readable(rest, info) < n {
            (Some(CodecError::IoError(reader.end_failure())), reader.exhausted())
        } else {
            (None, reader.advanced(8 * n))
        },
    }
}

/// The index of an entry by its channel and row.
proof fn lemma_entry(info: SgiRgbHeaderInfo, plane: int, y: int)
    requires
        0 <= y < info.ysize,
        0 <= plane < info.channels(),
    ensures
        ({
            let i = plane * info.ysize + y;
            &&& i % info.ysize as int == y
            &&& i / info.ysize as int == plane
            &&& 0 <= i
            &&& i + 1 <= (plane + 1) * info.ysize <= info.entries()
        }),
{
    let n = info.ysize as int;
    let i = plane * n + y;
    vstd::arithmetic::div_mod::lemma_fundamental_div_mod_converse(i, n, plane, y);
    assert(0 <= plane * n && plane * n + n == (plane + 1) * n && (plane + 1) * n
        <= info.channels() * n) by (nonlinear_arith)
        requires
            0 <= plane,
            plane + 1 <= info.channels(),
            n > 0,
    ;
}

/// Entries, once `done` offsets have been read.
spec fn offsets_read(
    table: Seq<SgiRgbScanlineState>,
    rest: Seq<u8>,
    info: SgiRgbHeaderInfo,
    done: int,
) -> bool {
    &&& table.len() == done
    &&& forall|i: int|
        0 <= i < done ==> {
            &&& (#[trigger] table[i]).line == Scanline {
                length: 0,
                ..table_line(rest, info, i)
            }
            &&& table[i].machine == rle::fresh(info.color_type.is_deep())
        }
}

/// Reads the table of offsets into `rle_table`, which is empty.
fn read_offsets<E>(
    reader: &mut ByteSource<E>,
    info: SgiRgbHeaderInfo,
    rle_table: &mut Vec<SgiRgbScanlineState>,
) -> (r: Result<(), CodecError<E>>)
    requires
        old(reader).wf(),
        info.wf(),
        old(rle_table)@.len() == 0,
    ensures
        final(reader).wf(),
        4 * info.entries() <= old(reader).rest().len() ==> {
            &&& r == Ok::<(), CodecError<E>>(())
            &&& *final(reader) == old(reader).advanced(4 * info.entries())
            &&& offsets_read(final(rle_table)@, old(reader).rest(), info, info.entries())
        },
        4 * info.entries() > old(reader).rest().len() ==> {
            &&& r == Err::<(), CodecError<E>>(CodecError::IoError(old(reader).end_failure()))
            &&& *final(reader) == old(reader).exhausted()
        },
{
    let ghost rest = reader.rest();
    let channels = info.color_type.channel_count();
    let deep = info.color_type.bytes_per_pixel() > channels;
    let mut plane: u8 = 0;
    assert(0 * info.ysize == 0) by (nonlinear_arith);
    while plane < channels
        invariant
            plane <= channels,
            channels == info.channels(),
            deep == info.color_type.is_deep(),
            info.wf(),
            old(reader).wf(),
            reader.wf(),
            rest == old(reader).rest(),
            4 * (plane * info.ysize) <= rest.len(),
            *reader == old(reader).advanced(4 * (plane * info.ysize)),
            offsets_read(rle_table@, rest, info, plane * info.ysize),
        decreases channels - plane,
    {
        let mut y: u16 = 0;
        while y < info.ysize
            invariant
                plane < channels,
                y <= info.ysize,
                channels == info.channels(),
                deep == info.color_type.is_deep(),
                info.wf(),
                old(reader).wf(),
                reader.wf(),
                rest == old(reader).rest(),
                4 * (plane * info.ysize + y) <= rest.len(),
                *reader == old(reader).advanced(4 * (plane * info.ysize + y)),
                offsets_read(rle_table@, rest, info, plane * info.ysize + y),
            decreases info.ysize - y,
        {
            let ghost i = plane * info.ysize + y;
            proof {
                lemma_entry(info, plane as int, y as int);
                assert(reader.rest() =~= rest.skip(4 * i));
            }
            let offset = match reader.read_be32() {
                Ok(offset) => offset,
                Err(e) => {
                    return Err(CodecError::IoError(e));
                },
            };
            assert(offset == source::be32(rest, 4 * i));
            rle_table.push(
                SgiRgbScanlineState {
                    line: Scanline { offset, length: 0, row_id: y, plane },
                    prec_active_line: 0,
                    machine: RleMachine {
                        position: 0,
                        counter: 0,
                        data_char_hi: 0,
                        at_counter: true,
                        high_byte: deep,
                    },
                },
            );
            y += 1;
        }
        assert((plane + 1) * info.ysize == plane * info.ysize + info.ysize) by (nonlinear_arith);
        plane += 1;
    }
    Ok(())
}

/// Entries, once `done` lengths have been read.
spec fn lengths_read(
    table: Seq<SgiRgbScanlineState>,
    rest: Seq<u8>,
    info: SgiRgbHeaderInfo,
    done: int,
) -> bool {
    &&& table.len() == info.entries()
    &&& forall|i: int|
        0 <= i < table.len() ==> {
            &&& (#[trigger] table[i]).line == if i < done {
                table_line(rest, info, i)
            } else {
                Scanline { length: 0, ..table_line(rest, info, i) }
            }
            &&& table[i].machine == rle::fresh(info.color_type.is_deep())
        }
}

/// Behind entries that are good, the first bad one is the first bad one of all.
proof fn lemma_first_bad(rest: Seq<u8>, info: SgiRgbHeaderInfo, i: int, n: int)
    requires
        0 <= i <= n,
        forall|j: int| 0 <= j < i ==> !is_bad(#[trigger] table_line(rest, info, j), info),
    ensures
        first_bad(rest, info, 0, n) == first_bad(rest, info, i, n),
    decreases i,
{
    if i > 0 {
        lemma_first_bad(rest, info, i - 1, n);
        assert(!is_bad(table_line(rest, info, i - 1), info));
    }
}

/// Reads both tables into `rle_table`, which is empty.
fn read_tables<E>(
    reader: &mut ByteSource<E>,
    info: SgiRgbHeaderInfo,
    rle_table: &mut Vec<SgiRgbScanlineState>,
) -> (r: Result<(), CodecError<E>>)
    requires
        old(reader).wf(),
        info.wf(),
        old(rle_table)@.len() == 0,
    ensures
        final(reader).wf(),
        ({
            let (error, after) = tables_outcome(*old(reader), info);
            &&& r == (match error {
                Some(e) => Err(e),
                None => Ok::<(), CodecError<E>>(()),
            })
            &&& *final(reader) == after
        }),
        r is Ok ==> {
            &&& scan::lines(final(rle_table)@) == table_lines(old(reader).rest(), info)
            &&& forall|i: int|
                0 <= i < final(rle_table)@.len() ==> {
                    &&& !is_bad((#[trigger] final(rle_table)@[i]).line, info)
                    &&& final(rle_table)@[i].machine == rle::fresh(info.color_type.is_deep())
                }
        },
{
    let ghost rest = reader.rest();
    let ghost n = info.entries();
    let ghost m = readable(rest, info);
    let channels = info.color_type.channel_count();
    assert(0 <= n <= 4 * 0xffff) by (nonlinear_arith)
        requires
            n == info.channels() * info.ysize,
            0 <= info.channels() <= 4,
            0 <= info.ysize <= 0xffff,
    ;
    read_offsets(reader, info, rle_table)?;
    let data_start: u32 = HEADER_FULL_LENGTH as u32 + channels as u32 * info.ysize as u32 * 8;
    let mut plane: u8 = 0;
    assert(0 * info.ysize == 0) by (nonlinear_arith);
    while plane < channels
        invariant
            plane <= channels,
            channels == info.channels(),
            info.wf(),
            old(reader).wf(),
            reader.wf(),
            rest == old(reader).rest(),
            n == info.entries() <= 4 * 0xffff,
            m == readable(rest, info),
            data_start == info.data_start(),
            4 * n + 4 * (plane * info.ysize) <= rest.len(),
            *reader == old(reader).advanced(4 * n + 4 * (plane * info.ysize)),
            lengths_read(rle_table@, rest, info, plane * info.ysize),
            forall|j: int|
                0 <= j < plane * info.ysize ==> !is_bad(#[trigger] table_line(rest, info, j), info),
        decreases channels - plane,
    {
        let mut y: u16 = 0;
        while y < info.ysize
            invariant
                plane < channels,
                y <= info.ysize,
                channels == info.channels(),
                info.wf(),
                old(reader).wf(),
                reader.wf(),
                rest == old(reader).rest(),
                n == info.entries() <= 4 * 0xffff,
                m == readable(rest, info),
                data_start == info.data_start(),
                4 * n + 4 * (plane * info.ysize + y) <= rest.len(),
                *reader == old(reader).advanced(4 * n + 4 * (plane * info.ysize + y)),
                lengths_read(rle_table@, rest, info, plane * info.ysize + y),
                forall|j: int|
                    0 <= j < plane * info.ysize + y ==> !is_bad(
                        #[trigger] table_line(rest, info, j),
                        info,
                    ),
            decreases info.ysize - y,
        {
            let ghost i = plane * info.ysize + y;
            proof {
                lemma_entry(info, plane as int, y as int);
                assert(reader.rest() =~= rest.skip(4 * n + 4 * i));
                lemma_first_bad(rest, info, if i <= m { i } else { m }, m);
            }
            let idx = plane as usize * info.ysize as usize + y as usize;
            let length = match reader.read_be32() {
                Ok(length) => length,
                Err(e) => {
                    return Err(CodecError::IoError(e));
                },
            };
            assert(length == source::be32(rest, 4 * (n + i)));
            let mut row = rle_table[idx];
            row.line.length = length;
            rle_table[idx] = row;
            assert(row.line == table_line(rest, info, i));
            // Image data follows the tables.
            if row.line.offset < data_start || length == 0 {
                return Err(
                    CodecError::Decoding(
                        DecodingError::Sgi(
                            SgiRgbDecodeError::RLERowInvalid(row.line.offset, length),
                        ),
                    ),
                );
            }
            y += 1;
        }
        assert((plane + 1) * info.ysize == plane * info.ysize + info.ysize) by (nonlinear_arith);
        plane += 1;
    }
    proof {
        lemma_first_bad(rest, info, n, n);
        assert(scan::lines(rle_table@) =~= table_lines(rest, info));
    }
    Ok(())
}

/// The place of a scanline in the order in which scanlines are processed.
fn scanline_key(row: &SgiRgbScanlineState) -> (r: u64)
    ensures
        r == raster::sort_key(row.line),
{
    row.line.offset as u64 * 0x1_0000_0000 + row.line.row_id as u64 * 0x1_0000
        + row.line.plane as u64
}

/// Calls `slice::sort_unstable_by_key`, with `scanline_key` for the key. The table then holds
/// the same entries as before, in the order of their keys.
#[verifier::external_body]
fn sort_rows(table: &mut Vec<SgiRgbScanlineState>)
    ensures
        final(table)@.to_multiset() == old(table)@.to_multiset(),
        forall|i: int, j: int|
            0 <= i < j < final(table)@.len() ==> raster::sort_key((#[trigger] final(table)@[i]).line)
                <= raster::sort_key((#[trigger] final(table)@[j]).line),
{
    table.sort_unstable_by_key(|row| scanline_key(row))
}

/// What the tables say, once it has been sorted.
proof fn lemma_sorted(
    info: SgiRgbHeaderInfo,
    rest: Seq<u8>,
    t: Seq<SgiRgbScanlineState>,
    s: Seq<SgiRgbScanlineState>,
)
    requires
        info.wf(),
        scan::lines(t) == table_lines(rest, info),
        forall|i: int|
            0 <= i < t.len() ==> {
                &&& !is_bad((#[trigger] t[i]).line, info)
                &&& t[i].machine == rle::fresh(info.color_type.is_deep())
            },
        s.to_multiset() == t.to_multiset(),
        forall|i: int, j: int|
            0 <= i < j < s.len() ==> raster::sort_key((#[trigger] s[i]).line) <= raster::sort_key(
                (#[trigger] s[j]).line,
            ),
    ensures
        raster::fresh_table(s, info, info.data_start()),
        forall|l: Scanline|
            #[trigger] scan::lines(s).contains(l) <==> table_lines(rest, info).contains(l),
        s.len() == info.entries(),
        info.entries() <= 4 * 0xffff,
{
    let n = info.entries();
    let lt = scan::lines(t);
    let lss = scan::lines(s);
    assert(0 < n <= 4 * 0xffff) by (nonlinear_arith)
        requires
            n == info.channels() * info.ysize,
            0 < info.channels() <= 4,
            0 < info.ysize <= 0xffff,
    ;
    assert(lt.len() == n);
    s.to_multiset_ensures();
    t.to_multiset_ensures();
    assert forall|i: int| 0 <= i < t.len() implies {
        &&& (#[trigger] t[i]).line == table_line(rest, info, i)
        &&& t[i].line.row_id == i % info.ysize as int
        &&& t[i].line.plane == i / info.ysize as int
        &&& t[i].line.row_id < info.ysize
        &&& t[i].line.plane < info.channels()
    } by {
        assert(lt[i] == t[i].line);
        let h = info.ysize as int;
        assert(0 <= i % h < h && 0 <= i / h < info.channels()) by (nonlinear_arith)
            requires
                0 <= i < info.channels() * h,
                h > 0,
        ;
    }
    assert forall|i: int, j: int| 0 <= i < t.len() && 0 <= j < t.len() && i != j implies (
    #[trigger] t[i]).line.row_id != (#[trigger] t[j]).line.row_id || t[i].line.plane
        != t[j].line.plane by {
        let h = info.ysize as int;
        vstd::arithmetic::div_mod::lemma_fundamental_div_mod(i, h);
        vstd::arithmetic::div_mod::lemma_fundamental_div_mod(j, h);
    }
    assert(t.no_duplicates());
    t.lemma_multiset_has_no_duplicates();
    s.lemma_multiset_has_no_duplicates_conv();
    assert forall|i: int| 0 <= i < s.len() implies t.contains(#[trigger] s[i]) by {
        assert(s.contains(s[i]));
        assert(s.to_multiset().count(s[i]) > 0);
    }
    assert forall|i: int| 0 <= i < s.len() implies {
        &&& (#[trigger] lss[i]) == s[i].line
        &&& lss[i].row_id < info.ysize
        &&& lss[i].plane < info.channels()
        &&& lss[i].length > 0
        &&& s[i].line.offset >= info.data_start()
        &&& s[i].machine == rle::fresh(info.color_type.is_deep())
    } by {
        let a = choose|a: int| 0 <= a < t.len() && #[trigger] t[a] == s[i];
        assert(!is_bad(t[a].line, info));
    }
    assert forall|i: int, j: int| 0 <= i < j < s.len() implies {
        &&& (#[trigger] lss[i]).row_id != (#[trigger] lss[j]).row_id || lss[i].plane
            != lss[j].plane
        &&& lss[i].offset <= lss[j].offset
    } by {
        let a = choose|a: int| 0 <= a < t.len() && #[trigger] t[a] == s[i];
        let b = choose|b: int| 0 <= b < t.len() && #[trigger] t[b] == s[j];
        assert(s[i] != s[j]);
        assert(a != b);
        assert(lss[i] == s[i].line && lss[j] == s[j].line);
        assert(raster::sort_key(s[i].line) <= raster::sort_key(s[j].line));
    }
    assert forall|i: int, j: int| 0 <= i < j < s.len() implies raster::sort_key(
        (#[trigger] s[i]).line,
    ) < raster::sort_key((#[trigger] s[j]).line) by {
        assert(lss[i] == s[i].line && lss[j] == s[j].line);
    }
    assert forall|i: int| 0 <= i < s.len() implies {
        &&& (#[trigger] s[i]).line.offset >= info.data_start()
        &&& s[i].machine == rle::fresh(info.color_type.is_deep())
    } by {
        assert(lss[i] == s[i].line);
    }
    assert forall|l: Scanline| #[trigger] lss.contains(l) implies lt.contains(l) by {
        let i = choose|i: int| 0 <= i < lss.len() && lss[i] == l;
        let a = choose|a: int| 0 <= a < t.len() && #[trigger] t[a] == s[i];
        assert(lt[a] == l);
    }
    assert forall|l: Scanline| lt.contains(l) implies #[trigger] lss.contains(l) by {
        let a = choose|a: int| 0 <= a < lt.len() && lt[a] == l;
        assert(t.contains(t[a]));
        assert(t.to_multiset().count(t[a]) > 0);
        assert(s.contains(t[a]));
        let i = choose|i: int| 0 <= i < s.len() && s[i] == t[a];
        assert(lss[i] == l);
    }
}

/// Reads the tables, and decodes the scanlines. `rle_table` is empty.
pub fn read_rle<E>(
    reader: &mut ByteSource<E>,
    info: SgiRgbHeaderInfo,
    rle_table: Vec<SgiRgbScanlineState>,
    buf: &mut [u8],
    order: ByteOrder,
) -> (r: Result<(), CodecError<E>>)
    requires
        old(reader).wf(),
        info.wf(),
        rle_table@.len() == 0,
        old(buf)@.len() == info.image_len(),
    ensures
        final(reader).wf(),
        match tables_outcome(*old(reader), info) {
            (Some(e), after) => {
                &&& r == Err::<(), CodecError<E>>(e)
                &&& *final(reader) == after
                &&& final(buf)@ == old(buf)@
            },
            (None, after) => exists|k: int|
                {
                    &&& #[trigger] raster::decoded(
                        info,
                        order,
                        table_lines(old(reader).rest(), info),
                        info.data_start(),
                        after.rest(),
                        after.window as int,
                        after.fault,
                        k,
                        old(buf)@,
                        final(buf)@,
                        r,
                    )
                    &&& *final(reader) == raster::reader_after(after, k)
                },
        },
{
    let mut table = rle_table;
    let ghost rest = reader.rest();
    read_tables(reader, info, &mut table)?;
    let ghost after = *reader;
    let ghost unsorted = table@;
    sort_rows(&mut table);
    proof {
        lemma_sorted(info, rest, unsorted, table@);
    }
    let start = HEADER_FULL_LENGTH as u64 + table.len() as u64 * 8;
    let ghost sorted = table@;
    let r = scan_rows(reader, info, table, start, buf, order);
    proof {
        let k = choose|k: int|
            {
                &&& #[trigger] raster::decoded(
                    info,
                    order,
                    scan::lines(sorted),
                    start as int,
                    after.rest(),
                    after.window as int,
                    after.fault,
                    k,
                    old(buf)@,
                    buf@,
                    r,
                )
                &&& *reader == raster::reader_after(after, k)
            };
        raster::lemma_decoded_any_order(
            info,
            order,
            scan::lines(sorted),
            table_lines(rest, info),
            start as int,
            after.rest(),
            after.window as int,
            after.fault,
            k,
            old(buf)@,
            buf@,
            r,
        );
    }
    r
}

} // verus!
