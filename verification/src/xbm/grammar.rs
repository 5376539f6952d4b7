//! What the text of an X BitMap file means.
//!
//! Every function here takes the whole text and the position at which a part of it is
//! expected, and gives the position behind that part together with its value, or the
//! position at which reading stops together with the error.

use vstd::prelude::*;

use super::{TextLocation, XbmDecodeError, XbmHeaderData, XbmPart};
use crate::decimal;
use crate::types::{DecodingError, CodecError, IoFailure, ParameterErrorKind};

verus! {

/// A position in the text, and what was read up to it.
pub type Parsed<T> = (int, Result<T, XbmDecodeError>);

/// A result that holds bytes, as one that holds what they are.
pub open spec fn viewed(r: Result<Vec<u8>, XbmDecodeError>) -> Result<Seq<u8>, XbmDecodeError> {
    match r {
        Ok(v) => Ok(v@),
        Err(e) => Err(e),
    }
}

/// The kinds of characters that the format tells apart.
pub enum CharClass {
    /// Spaces and tabs.
    Blank,
    /// Spaces, tabs and newlines.
    Space,
    /// Everything but spaces, tabs and newlines.
    Token,
}

/// Whether `b` is a space or a tab.
pub open spec fn is_blank(b: u8) -> bool {
    b == ' ' as u8 || b == '\t' as u8
}

/// Whether `b` is a space, a tab or a newline.
pub open spec fn is_space(b: u8) -> bool {
    is_blank(b) || b == '\n' as u8
}

/// Whether `b` belongs to a class.
pub open spec fn in_class(c: CharClass, b: u8) -> bool {
    match c {
        CharClass::Blank => is_blank(b),
        CharClass::Space => is_space(b),
        CharClass::Token => !is_space(b),
    }
}

/// The number of characters of a class that follow each other from `pos` on.
pub open spec fn run_len(text: Seq<u8>, pos: int, c: CharClass) -> nat
    decreases text.len() - pos,
{
    if 0 <= pos < text.len() && in_class(c, text[pos]) {
        1 + run_len(text, pos + 1, c)
    } else {
        0
    }
}

/// The number of the line that holds position `n`, counting from 1.
pub open spec fn line_at(text: Seq<u8>, n: int) -> nat
    decreases n,
{
    if n <= 0 {
        1
    } else if text[n - 1] == '\n' as u8 {
        line_at(text, n - 1) + 1
    } else {
        line_at(text, n - 1)
    }
}

/// The number of characters between the start of the line and position `n`.
pub open spec fn column_at(text: Seq<u8>, n: int) -> nat
    decreases n,
{
    if n <= 0 || text[n - 1] == '\n' as u8 {
        0
    } else {
        column_at(text, n - 1) + 1
    }
}

/// Position `n` as a location.
pub open spec fn location(text: Seq<u8>, n: int) -> TextLocation {
    TextLocation {
        byte: n as u64,
        line: line_at(text, n) as u64,
        column: column_at(text, n) as u64,
    }
}

/// Reading stops at `pos`.
pub open spec fn stop<T>(text: Seq<u8>, pos: int, part: XbmPart) -> Parsed<T> {
    (pos, Err(XbmDecodeError::Parse(part, location(text, pos))))
}

/// The position behind the character at `pos`, if there is one.
pub open spec fn bump(text: Seq<u8>, pos: int) -> int {
    if pos < text.len() {
        pos + 1
    } else {
        pos
    }
}

/// One character.
pub open spec fn byte(text: Seq<u8>, pos: int, part: XbmPart) -> Parsed<u8> {
    if pos < text.len() {
        (pos + 1, Ok(text[pos]))
    } else {
        stop(text, pos, part)
    }
}

/// The number of characters of `s`, counted from its `i`th one on, that stand in the text
/// from `pos + i` on, plus `i`.
pub open spec fn matched(text: Seq<u8>, pos: int, s: Seq<u8>, i: int) -> int
    decreases s.len() - i,
{
    if 0 <= i < s.len() && pos + i < text.len() && text[pos + i] == s[i] {
        matched(text, pos, s, i + 1)
    } else {
        i
    }
}

/// Precisely the characters of `s`. Reading stops behind the first one that differs.
pub open spec fn fixed(text: Seq<u8>, pos: int, s: Seq<u8>, part: XbmPart) -> Parsed<()> {
    let end = pos + matched(text, pos, s, 0);
    if end == pos + s.len() {
        (end, Ok(()))
    } else {
        stop(text, bump(text, end), part)
    }
}

/// One or more blanks.
pub open spec fn gap(text: Seq<u8>, pos: int, part: XbmPart) -> Parsed<()> {
    if pos < text.len() && is_blank(text[pos]) {
        (pos + run_len(text, pos, CharClass::Blank), Ok(()))
    } else {
        stop(text, bump(text, pos), part)
    }
}

/// The position behind any spaces, tabs and newlines.
pub open spec fn skip_space(text: Seq<u8>, pos: int) -> int {
    pos + run_len(text, pos, CharClass::Space)
}

/// Blanks, if any, and a newline.
pub open spec fn newline(text: Seq<u8>, pos: int, part: XbmPart) -> Parsed<()> {
    let end = pos + run_len(text, pos, CharClass::Blank);
    if end < text.len() && text[end] == '\n' as u8 {
        (end + 1, Ok(()))
    } else {
        stop(text, bump(text, end), part)
    }
}

/// All characters up to the next space, tab, newline or the end, if there are no more of
/// them than `limit`.
pub open spec fn token(text: Seq<u8>, pos: int, limit: int, part: XbmPart) -> Parsed<Seq<u8>> {
    let len = run_len(text, pos, CharClass::Token);
    if len <= limit {
        (pos + len, Ok(text.subrange(pos, pos + len)))
    } else {
        stop(text, pos + limit, part)
    }
}

/// The value of a hexadecimal digit in either case.
pub open spec fn hex_value(b: u8) -> Option<u8> {
    if '0' as u8 <= b <= '9' as u8 {
        Some((b - '0' as u8) as u8)
    } else if 'A' as u8 <= b <= 'F' as u8 {
        Some((b - 'A' as u8 + 10) as u8)
    } else if 'a' as u8 <= b <= 'f' as u8 {
        Some((b - 'a' as u8 + 10) as u8)
    } else {
        None
    }
}

/// A hexadecimal digit.
pub open spec fn hex_digit(text: Seq<u8>, pos: int, part: XbmPart) -> Parsed<u8> {
    if pos < text.len() && hex_value(text[pos]) is Some {
        (pos + 1, Ok(hex_value(text[pos])->0))
    } else {
        stop(text, bump(text, pos), part)
    }
}

/// A byte in hexadecimal, such as `0xA1`.
pub open spec fn hex_byte(text: Seq<u8>, pos: int, part: XbmPart) -> Parsed<u8> {
    if !(pos < text.len() && text[pos] == '0' as u8) {
        stop(text, bump(text, pos), part)
    } else if !(pos + 1 < text.len() && (text[pos + 1] == 'x' as u8 || text[pos + 1]
        == 'X' as u8)) {
        stop(text, bump(text, pos + 1), part)
    } else {
        match hex_digit(text, pos + 2, part) {
            (p, Err(e)) => (p, Err(e)),
            (p, Ok(high)) => match hex_digit(text, p, part) {
                (q, Err(e)) => (q, Err(e)),
                (q, Ok(low)) => (q, Ok((high * 16 + low) as u8)),
            },
        }
    }
}

/// The greatest length of the symbol that a `#define` line gives a value to.
pub const MAX_IDENTIFIER_LENGTH: usize = 256;

/// The greatest length of a number.
pub const MAX_INTEGER_LENGTH: usize = 11;

/// The end of a `#define` line: a gap, the text of a number, and a newline.
#[verifier::opaque]
pub open spec fn line_value(text: Seq<u8>, pos: int, part: XbmPart) -> Parsed<Seq<u8>> {
    match gap(text, pos, part) {
        (p, Err(e)) => (p, Err(e)),
        (p, Ok(_)) => match token(text, p, MAX_INTEGER_LENGTH as int, part) {
            (q, Err(e)) => (q, Err(e)),
            (q, Ok(digits)) => match newline(text, q, part) {
                (n, Err(e)) => (n, Err(e)),
                (n, Ok(_)) => (n, Ok(digits)),
            },
        },
    }
}

/// The line `#define <name><suffix> <number>`, giving the text of the number.
#[verifier::opaque]
pub open spec fn define_line(
    text: Seq<u8>,
    pos: int,
    name: Seq<u8>,
    suffix: Seq<u8>,
    part: XbmPart,
) -> Parsed<Seq<u8>> {
    match fixed(text, pos, decimal::ascii("#define"@), part) {
        (p, Err(e)) => (p, Err(e)),
        (p, Ok(_)) => match gap(text, p, part) {
            (p, Err(e)) => (p, Err(e)),
            (p, Ok(_)) => match fixed(text, p, name, part) {
                (p, Err(e)) => (p, Err(e)),
                (p, Ok(_)) => match fixed(text, p, suffix, part) {
                    (p, Err(e)) => (p, Err(e)),
                    (p, Ok(_)) => line_value(text, p, part),
                },
            },
        },
    }
}

/// Whether `s` ends with `suffix`.
pub open spec fn ends_with(s: Seq<u8>, suffix: Seq<u8>) -> bool {
    s.len() >= suffix.len() && s.skip(s.len() - suffix.len()) == suffix
}

/// The line `#define <name>_width <width>`, giving the name and the text of the width.
#[verifier::opaque]
pub open spec fn width_line(text: Seq<u8>, pos: int) -> Parsed<(Seq<u8>, Seq<u8>)> {
    let part = XbmPart::Width;
    match fixed(text, pos, decimal::ascii("#define"@), part) {
        (p, Err(e)) => (p, Err(e)),
        (p, Ok(_)) => match gap(text, p, part) {
            (p, Err(e)) => (p, Err(e)),
            (p, Ok(_)) => match token(text, p, MAX_IDENTIFIER_LENGTH as int, part) {
                (p, Err(e)) => (p, Err(e)),
                (p, Ok(symbol)) => if !ends_with(symbol, decimal::ascii("_width"@)) {
                    stop(text, p, part)
                } else {
                    match line_value(text, p, part) {
                        (q, Err(e)) => (q, Err(e)),
                        (q, Ok(digits)) => (q, Ok((symbol.take(symbol.len() - 6), digits))),
                    }
                },
            },
        },
    }
}

/// The coordinates in the optional lines `#define <name>_x_hot <x>` and
/// `#define <name>_y_hot <y>`.
#[verifier::opaque]
pub open spec fn hotspot_lines(text: Seq<u8>, pos: int, name: Seq<u8>) -> Parsed<
    Option<(i32, i32)>,
> {
    if pos < text.len() && text[pos] == '#' as u8 {
        match define_line(text, pos, name, decimal::ascii("_x_hot"@), XbmPart::HotspotX) {
            (p, Err(e)) => (p, Err(e)),
            (p, Ok(x_digits)) => match decimal::i32_of(x_digits) {
                None => (p, Err(XbmDecodeError::DecodeInteger(XbmPart::HotspotX))),
                Some(x) => match define_line(
                    text,
                    p,
                    name,
                    decimal::ascii("_y_hot"@),
                    XbmPart::HotspotY,
                ) {
                    (q, Err(e)) => (q, Err(e)),
                    (q, Ok(y_digits)) => match decimal::i32_of(y_digits) {
                        None => (q, Err(XbmDecodeError::DecodeInteger(XbmPart::HotspotY))),
                        Some(y) => (q, Ok(Some((x, y)))),
                    },
                },
            },
        }
    } else if pos < text.len() && text[pos] == 's' as u8 {
        (pos, Ok(None))
    } else {
        stop(text, bump(text, pos), XbmPart::Array)
    }
}

/// The element type of the array: `char` or `unsigned char`.
pub open spec fn array_type(text: Seq<u8>, pos: int) -> Parsed<()> {
    let part = XbmPart::Array;
    if pos < text.len() && text[pos] == 'c' as u8 {
        fixed(text, pos, decimal::ascii("char"@), part)
    } else if pos < text.len() && text[pos] == 'u' as u8 {
        match fixed(text, pos, decimal::ascii("unsigned"@), part) {
            (p, Err(e)) => (p, Err(e)),
            (p, Ok(_)) => match gap(text, p, part) {
                (p, Err(e)) => (p, Err(e)),
                (p, Ok(_)) => fixed(text, p, decimal::ascii("char"@), part),
            },
        }
    } else {
        stop(text, bump(text, pos), part)
    }
}

/// The part `<name>_bits[] = {`.
pub open spec fn array_name(text: Seq<u8>, pos: int, name: Seq<u8>) -> Parsed<()> {
    let part = XbmPart::Array;
    match gap(text, pos, part) {
        (p, Err(e)) => (p, Err(e)),
        (p, Ok(_)) => match fixed(text, p, name, part) {
            (p, Err(e)) => (p, Err(e)),
            (p, Ok(_)) => match fixed(text, p, decimal::ascii("_bits[]"@), part) {
                (p, Err(e)) => (p, Err(e)),
                (p, Ok(_)) => match gap(text, p, part) {
                    (p, Err(e)) => (p, Err(e)),
                    (p, Ok(_)) => match fixed(text, p, decimal::ascii("="@), part) {
                        (p, Err(e)) => (p, Err(e)),
                        (p, Ok(_)) => match gap(text, p, part) {
                            (p, Err(e)) => (p, Err(e)),
                            (p, Ok(_)) => fixed(text, p, decimal::ascii("{"@), part),
                        },
                    },
                },
            },
        },
    }
}

/// The start of the array: `static <type> <name>_bits[] = {`.
#[verifier::opaque]
pub open spec fn array_start(text: Seq<u8>, pos: int, name: Seq<u8>) -> Parsed<()> {
    let part = XbmPart::Array;
    match fixed(text, pos, decimal::ascii("static"@), part) {
        (p, Err(e)) => (p, Err(e)),
        (p, Ok(_)) => match gap(text, p, part) {
            (p, Err(e)) => (p, Err(e)),
            (p, Ok(_)) => match array_type(text, p) {
                (p, Err(e)) => (p, Err(e)),
                (p, Ok(_)) => array_name(text, p, name),
            },
        },
    }
}

/// The header, up to and including the first opening brace: the name of the image, and its
/// properties.
pub open spec fn header(text: Seq<u8>, pos: int) -> Parsed<(Seq<u8>, XbmHeaderData)> {
    match width_line(text, pos) {
        (p, Err(e)) => (p, Err(e)),
        (p, Ok((name, width_digits))) => match decimal::u32_of(width_digits) {
            None => (p, Err(XbmDecodeError::DecodeInteger(XbmPart::Width))),
            Some(width) => if width == 0 {
                (p, Err(XbmDecodeError::ZeroWidth))
            } else {
                match define_line(text, p, name, decimal::ascii("_height"@), XbmPart::Height) {
                    (p, Err(e)) => (p, Err(e)),
                    (p, Ok(height_digits)) => match decimal::u32_of(height_digits) {
                        None => (p, Err(XbmDecodeError::DecodeInteger(XbmPart::Height))),
                        Some(height) => if height == 0 {
                            (p, Err(XbmDecodeError::ZeroHeight))
                        } else {
                            match hotspot_lines(text, p, name) {
                                (p, Err(e)) => (p, Err(e)),
                                (p, Ok(hotspot)) => match array_start(text, p, name) {
                                    (p, Err(e)) => (p, Err(e)),
                                    (p, Ok(_)) => (
                                        p,
                                        Ok((name, XbmHeaderData { width, height, hotspot })),
                                    ),
                                },
                            }
                        },
                    },
                }
            },
        },
    }
}

/// The number of bytes in which a row of pixels is stored.
pub open spec fn row_bytes(width: nat) -> nat {
    (width + 7) / 8
}

impl XbmHeaderData {
    /// The number of bytes in which the image is stored.
    pub open spec fn data_size(self) -> nat {
        row_bytes(self.width as nat) * self.height as nat
    }
}

/// An element of the array that `count` others precede, with the comma between them.
pub open spec fn element(text: Seq<u8>, pos: int, count: nat) -> Parsed<u8> {
    if count == 0 {
        hex_byte(text, skip_space(text, pos), XbmPart::Data)
    } else {
        match fixed(text, skip_space(text, pos), decimal::ascii(","@), XbmPart::Data) {
            (p, Err(e)) => (p, Err(e)),
            (p, Ok(_)) => hex_byte(text, skip_space(text, p), XbmPart::Data),
        }
    }
}

/// A comma that may follow the last element.
pub open spec fn last_comma(text: Seq<u8>, pos: int) -> Parsed<()> {
    if pos < text.len() && text[pos] == ',' as u8 {
        (skip_space(text, pos + 1), Ok(()))
    } else if pos < text.len() && text[pos] == '}' as u8 {
        (pos, Ok(()))
    } else {
        stop(text, bump(text, pos), XbmPart::ArrayEnd)
    }
}

/// Everything behind the last element, up to the end of the text.
pub open spec fn trailer(text: Seq<u8>, pos: int) -> Parsed<()> {
    match last_comma(text, skip_space(text, pos)) {
        (p, Err(e)) => (p, Err(e)),
        (p, Ok(_)) => match fixed(text, p, decimal::ascii("}"@), XbmPart::ArrayEnd) {
            (p, Err(e)) => (p, Err(e)),
            (p, Ok(_)) => match fixed(
                text,
                skip_space(text, p),
                decimal::ascii(";"@),
                XbmPart::ArrayEnd,
            ) {
                (p, Err(e)) => (p, Err(e)),
                (p, Ok(_)) => if skip_space(text, p) < text.len() {
                    stop(text, skip_space(text, p) + 1, XbmPart::Trailing)
                } else {
                    (skip_space(text, p), Ok(()))
                },
            },
        },
    }
}

/// What comes next once `count` elements have been read: an element, or the trailer behind
/// the last one.
#[verifier::opaque]
pub open spec fn next_element(text: Seq<u8>, pos: int, count: nat, size: nat) -> Parsed<
    Option<u8>,
> {
    if count < size {
        match element(text, pos, count) {
            (p, Err(e)) => (p, Err(e)),
            (p, Ok(b)) => (p, Ok(Some(b))),
        }
    } else {
        match trailer(text, pos) {
            (p, Err(e)) => (p, Err(e)),
            (p, Ok(_)) => (p, Ok(None)),
        }
    }
}

/// The shade of the pixel that bit `i` of `b` stands for: black if it is set.
pub open spec fn shade(b: u8, i: nat) -> u8 {
    if b & (1u8 << (i as u8)) == 0 {
        0xff
    } else {
        0
    }
}

/// The index of the byte that holds pixel `p` of rows of `width` pixels each.
pub open spec fn slot(p: int, width: nat) -> int {
    (p / width as int) * row_bytes(width) + (p % width as int) / 8
}

/// The pixels of whole rows of `width` pixels each, as far as `bytes` gives them. The other
/// pixels are those of `rest`.
pub open spec fn unpacked(bytes: Seq<u8>, width: nat, rest: Seq<u8>) -> Seq<u8> {
    Seq::new(
        rest.len(),
        |p: int|
            if p < (rest.len() / width) * width && slot(p, width) < bytes.len() {
                shade(bytes[slot(p, width)], ((p % width as int) % 8) as nat)
            } else {
                rest[p]
            },
    )
}

/// The error that comes of reading up to `pos` with result `r`, in a text at whose end
/// `fault` is met. That error takes precedence.
pub open spec fn outcome<T, E>(text: Seq<u8>, parsed: Parsed<T>, fault: Option<E>) -> Result<
    T,
    CodecError<E>,
> {
    match (fault, parsed.1) {
        (Some(f), _) if parsed.0 == text.len() => Err(CodecError::IoError(IoFailure::Reader(f))),
        (_, Ok(v)) => Ok(v),
        (_, Err(e)) => Err(CodecError::Decoding(DecodingError::Xbm(e))),
    }
}

/// Reads `n` elements behind the first `count` ones. This gives the elements up to the first
/// error, the position behind them, and the error.
pub open spec fn elements<E>(
    text: Seq<u8>,
    pos: int,
    count: nat,
    n: nat,
    size: nat,
    fault: Option<E>,
) -> (Seq<u8>, int, Option<CodecError<E>>)
    decreases n,
{
    if n == 0 {
        (Seq::empty(), pos, None)
    } else {
        let next = next_element(text, pos, count, size);
        match outcome(text, next, fault) {
            Err(e) => (Seq::empty(), next.0, Some(e)),
            Ok(None) => (
                Seq::empty(),
                next.0,
                Some(CodecError::Parameter(ParameterErrorKind::DimensionMismatch)),
            ),
            Ok(Some(b)) => {
                let (bytes, end, err) = elements(
                    text,
                    next.0,
                    count + 1,
                    (n - 1) as nat,
                    size,
                    fault,
                );
                (seq![b] + bytes, end, err)
            },
        }
    }
}

/// What reading an image into `buf` leaves there, and whether it succeeds. The header ends at
/// `pos`.
pub open spec fn image_read<E>(
    text: Seq<u8>,
    pos: int,
    header: XbmHeaderData,
    fault: Option<E>,
    buf: Seq<u8>,
) -> (Seq<u8>, Result<(), CodecError<E>>) {
    let width = header.width as nat;
    let n = (buf.len() / width) * row_bytes(width);
    let (bytes, end, err) = elements(text, pos, 0, n, header.data_size(), fault);
    (
        unpacked(bytes, width, buf),
        match err {
            Some(e) => Err(e),
            None => match outcome(
                text,
                next_element(text, end, n, header.data_size()),
                fault,
            ) {
                Err(e) => Err(e),
                Ok(Some(_)) => Err(
                    CodecError::Parameter(ParameterErrorKind::DimensionMismatch),
                ),
                Ok(None) => Ok(()),
            },
        },
    )
}

/// Byte `c / 8` of row `row` holds the pixels of that row from column `c` on, up to eight.
pub proof fn lemma_slot(p: int, width: nat, row: int, c: int)
    requires
        0 <= p,
        0 <= row,
        0 <= c < width,
        c % 8 == 0,
    ensures
        slot(p, width) == row * row_bytes(width) + c / 8 <==> row * width + c <= p < row * width
            + c + 8 && p < row * width + width,
        row * width <= p < row * width + width ==> p % width as int == p - row * width,
{
    let w = width as int;
    let rb = row_bytes(width) as int;
    let pr = p / w;
    let pc = p % w;
    assert(p == pr * w + pc && 0 <= pc < w && 0 <= pr) by (nonlinear_arith)
        requires
            pr == p / w,
            pc == p % w,
            w > 0,
            p >= 0,
    ;
    if pr < row {
        assert(pr * rb + rb <= row * rb && pr * w + w <= row * w) by (nonlinear_arith)
            requires
                pr + 1 <= row,
                rb >= 0,
                w > 0,
        ;
    } else if pr > row {
        assert(row * rb + rb <= pr * rb && row * w + w <= pr * w) by (nonlinear_arith)
            requires
                row + 1 <= pr,
                rb >= 0,
                w > 0,
        ;
    }
}

} // verus!
