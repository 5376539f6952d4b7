//! Decoding of X BitMap (`.xbm`) images.
//!
//! An X BitMap is a plain text image, often used for cursors and icons. It can be valid C
//! code, although a noticeable fraction of historical images has a name that is not a valid
//! C identifier, and is not even text in any particular encoding.

use vstd::prelude::*;

use crate::decimal;
use crate::decimal::{ascii_bytes, decimal_string, parse_i32, parse_u32};
use crate::source::ByteSource;
use crate::types::{
    metadata_free_attributes, ColorType, DecoderAttributes, DecodingError, ExtendedColorType,
    CodecError, ImageLayout, IoFailure, ParameterErrorKind,
};

pub mod grammar;
pub mod laws;

verus! {

/// The place of a byte in the input: its offset, and its line and column.
#[derive(Debug, Clone, Copy, PartialEq, Eq, Structural)]
pub struct TextLocation {
    pub byte: u64,
    pub line: u64,
    pub column: u64,
}

/// The part of the file in which an error occurs.
#[derive(Debug, Clone, Copy, PartialEq, Eq, Structural)]
pub enum XbmPart {
    Width,
    Height,
    HotspotX,
    HotspotY,
    Array,
    Data,
    ArrayEnd,
    Trailing,
}

/// What is wrong with the text of a file.
#[derive(Debug, Clone, Copy, PartialEq, Eq, Structural)]
pub enum XbmDecodeError {
    Parse(XbmPart, TextLocation),
    DecodeInteger(XbmPart),
    ZeroWidth,
    ZeroHeight,
}

impl TextLocation {
    /// The location as text.
    pub open spec fn text(self) -> Seq<char> {
        "byte="@ + decimal::decimal_text(self.byte as nat) + ",line="@ + decimal::decimal_text(
            self.line as nat,
        ) + ":col="@ + decimal::decimal_text(self.column as nat)
    }

    /// The location as text.
    pub fn message(&self) -> (r: String)
        ensures
            r@ == self.text(),
    {
        let mut r = "byte=".to_owned();
        r.append(decimal_string(self.byte).as_str());
        r.append(",line=");
        r.append(decimal_string(self.line).as_str());
        r.append(":col=");
        r.append(decimal_string(self.column).as_str());
        r
    }
}

impl XbmPart {
    /// What the part is called.
    pub open spec fn text(self) -> Seq<char> {
        match self {
            XbmPart::Width => "#define for image width"@,
            XbmPart::Height => "#define for image height"@,
            XbmPart::HotspotX => "#define for hotspot x coordinate"@,
            XbmPart::HotspotY => "#define for hotspot y coordinate"@,
            XbmPart::Array => "array definition"@,
            XbmPart::Data => "array content"@,
            XbmPart::ArrayEnd => "array end"@,
            XbmPart::Trailing => "end of file"@,
        }
    }

    /// What the part is called.
    pub fn message(&self) -> (r: String)
        ensures
            r@ == self.text(),
    {
        match self {
            XbmPart::Width => "#define for image width".to_owned(),
            XbmPart::Height => "#define for image height".to_owned(),
            XbmPart::HotspotX => "#define for hotspot x coordinate".to_owned(),
            XbmPart::HotspotY => "#define for hotspot y coordinate".to_owned(),
            XbmPart::Array => "array definition".to_owned(),
            XbmPart::Data => "array content".to_owned(),
            XbmPart::ArrayEnd => "array end".to_owned(),
            XbmPart::Trailing => "end of file".to_owned(),
        }
    }
}

impl XbmDecodeError {
    /// What the error says.
    pub open spec fn text(self) -> Seq<char> {
        match self {
            XbmDecodeError::Parse(part, loc) => "Failed to parse "@ + part.text()
                + ", unexpected character or eof at "@ + loc.text(),
            XbmDecodeError::DecodeInteger(part) => "Failed to parse integer for "@ + part.text(),
            XbmDecodeError::ZeroWidth => "Invalid image width: should not be zero"@,
            XbmDecodeError::ZeroHeight => "Invalid image height: should not be zero"@,
        }
    }

    /// What the error says.
    pub fn message(&self) -> (r: String)
        ensures
            r@ == self.text(),
    {
        match self {
            XbmDecodeError::Parse(part, loc) => {
                let mut r = "Failed to parse ".to_owned();
                r.append(part.message().as_str());
                r.append(", unexpected character or eof at ");
                r.append(loc.message().as_str());
                r
            },
            XbmDecodeError::DecodeInteger(part) => {
                let mut r = "Failed to parse integer for ".to_owned();
                r.append(part.message().as_str());
                r
            },
            XbmDecodeError::ZeroWidth => "Invalid image width: should not be zero".to_owned(),
            XbmDecodeError::ZeroHeight => "Invalid image height: should not be zero".to_owned(),
        }
    }
}

/// Properties of an image, but for its name.
#[derive(Debug, Clone, Copy, PartialEq, Eq)]
pub struct XbmHeaderData {
    pub width: u32,
    pub height: u32,
    pub hotspot: Option<(i32, i32)>,
}

/// Yields the bytes of a source one at a time, and sets the source's error aside when it
/// comes. Whoever uses this has to look at the error in the end.
#[derive(Debug)]
pub struct IoAdapter<E> {
    pub source: ByteSource<E>,
    pub error: Option<E>,
}

impl<E> IoAdapter<E> {
    /// The next byte. There is none at the end, nor once the source has failed.
    pub fn next(&mut self) -> (r: Option<u8>)
        requires
            old(self).source.wf(),
        ensures
            final(self).source.wf(),
            old(self).error is Some ==> r is None && *final(self) == *old(self),
            old(self).error is None && old(self).source.rest().len() > 0 ==> {
                &&& r == Some(old(self).source.rest()[0])
                &&& final(self).source == old(self).source.advanced(1)
                &&& final(self).error is None
            },
            old(self).error is None && old(self).source.rest().len() == 0 ==> {
                &&& r is None
                &&& final(self).source == (ByteSource { fault: None, ..old(self).source })
                &&& final(self).error == old(self).source.fault
            },
    {
        if self.error.is_some() {
            return None;
        }
        match self.source.next() {
            Some(b) => Some(b),
            None => {
                self.error = self.source.fault.take();
                None
            },
        }
    }
}

/// A reader that shows the next byte in advance and keeps track of where it is.
#[derive(Debug)]
pub struct TextReader<E> {
    pub inner: IoAdapter<E>,
    pub current: Option<u8>,
    pub location: TextLocation,
}

/// Locations fit into their fields.
proof fn lemma_location_bounds(text: Seq<u8>, n: int)
    requires
        0 <= n <= text.len(),
    ensures
        1 <= grammar::line_at(text, n) <= n + 1,
        grammar::column_at(text, n) <= n,
    decreases n,
{
    if n > 0 {
        lemma_location_bounds(text, n - 1);
    }
}

impl<E> TextReader<E> {
    /// The number of bytes that have been read.
    pub open spec fn pos(self) -> int {
        self.location.byte as int
    }

    /// The number of bytes that had been taken from the source before this reader got it.
    pub open spec fn base(self) -> int {
        self.inner.source.pos - self.pos() - (if self.current is Some { 1int } else { 0int })
    }

    /// Everything there is to read, from the start.
    pub open spec fn text(self) -> Seq<u8> {
        self.inner.source.data@.skip(self.base())
    }

    /// The error that is met at the end of the text, if there is one.
    pub open spec fn fault(self) -> Option<E> {
        if self.inner.error is Some {
            self.inner.error
        } else {
            self.inner.source.fault
        }
    }

    /// What holds of every reader.
    pub open spec fn wf(self) -> bool {
        &&& self.inner.source.wf()
        &&& 0 <= self.base() <= self.inner.source.data@.len()
        &&& 0 <= self.pos() <= self.text().len()
        &&& self.location == grammar::location(self.text(), self.pos())
        &&& self.pos() < self.text().len() ==> {
            &&& self.current == Some(self.text()[self.pos()])
            &&& self.inner.error is None
        }
        &&& self.pos() == self.text().len() ==> {
            &&& self.current is None
            &&& self.inner.source.fault is None
        }
    }

    /// Whether this is `before`, possibly at another position.
    pub open spec fn continues(self, before: TextReader<E>) -> bool {
        &&& self.wf()
        &&& self.text() == before.text()
        &&& self.fault() == before.fault()
    }

    /// The byte that comes next, if there is one.
    pub open spec fn ahead(self) -> Option<u8> {
        if self.pos() < self.text().len() {
            Some(self.text()[self.pos()])
        } else {
            None
        }
    }

    /// What taking a byte from `before` gives. At the end nothing changes: the source is not asked
    /// again.
    pub open spec fn taken(before: TextReader<E>, r: Option<u8>, after: TextReader<E>) -> bool {
        &&& after.continues(before)
        &&& after.pos() == grammar::bump(before.text(), before.pos())
        &&& r == before.ahead()
        &&& before.pos() == before.text().len() ==> after == before
    }

    /// A reader at the start of what a source has to give.
    pub fn new(source: ByteSource<E>) -> (r: TextReader<E>)
        requires
            source.wf(),
        ensures
            r.wf(),
            r.pos() == 0,
            r.text() == source.rest(),
            r.fault() == source.fault,
    {
        let mut inner = IoAdapter { source, error: None };
        let current = inner.next();
        let r = TextReader {
            inner,
            current,
            location: TextLocation { byte: 0, line: 1, column: 0 },
        };
        assert(r.text() =~= source.rest());
        r
    }

    /// Takes the next byte. At the end there is none, and the reader stays as it is.
    pub fn next(&mut self) -> (r: Option<u8>)
        requires
            old(self).wf(),
        ensures
            Self::taken(*old(self), r, *final(self)),
    {
        if self.current.is_none() {
            return None;
        }
        let ghost text = self.text();
        let ghost pos = self.pos();
        proof {
            lemma_location_bounds(text, pos);
            lemma_location_bounds(text, pos + 1);
            if pos + 1 < text.len() {
                assert(text[pos + 1] == self.inner.source.rest()[0]);
            }
        }
        let current = self.current;
        self.current = self.inner.next();

        self.location.byte = self.location.byte + 1;
        self.location.column = self.location.column + 1;
        if current == Some('\n' as u8) {
            self.location.line = self.location.line + 1;
            self.location.column = 0;
        }
        assert(self.text() =~= text);
        current
    }

    /// Shows the next byte. At the end there is none.
    pub fn peek(&self) -> (r: Option<u8>)
        requires
            self.wf(),
        ensures
            r == self.ahead(),
    {
        self.current
    }

    /// The location behind the last byte that was read.
    pub fn loc(&self) -> (r: TextLocation)
        requires
            self.wf(),
        ensures
            r == grammar::location(self.text(), self.pos()),
    {
        self.location
    }
}

/// Reads precisely the string `s`.
fn read_fixed_string<E>(r: &mut TextReader<E>, s: &[u8], part: XbmPart) -> (res: Result<
    (),
    XbmDecodeError,
>)
    requires
        old(r).wf(),
    ensures
        final(r).continues(*old(r)),
        (final(r).pos(), res) == grammar::fixed(old(r).text(), old(r).pos(), s@, part),
{
    let mut i: usize = 0;
    while i < s.len()
        invariant
            i <= s@.len(),
            r.continues(*old(r)),
            r.pos() == old(r).pos() + i,
            grammar::matched(r.text(), old(r).pos(), s@, 0) == grammar::matched(
                r.text(),
                old(r).pos(),
                s@,
                i as int,
            ),
        decreases s@.len() - i,
    {
        match r.next() {
            Some(b) => {
                if b != s[i] {
                    return Err(XbmDecodeError::Parse(part, r.loc()));
                }
            },
            None => {
                return Err(XbmDecodeError::Parse(part, r.loc()));
            },
        }
        i += 1;
    }
    Ok(())
}

/// Reads a single byte.
fn read_byte<E>(r: &mut TextReader<E>, part: XbmPart) -> (res: Result<u8, XbmDecodeError>)
    requires
        old(r).wf(),
    ensures
        final(r).continues(*old(r)),
        (final(r).pos(), res) == grammar::byte(old(r).text(), old(r).pos(), part),
{
    match r.next() {
        None => Err(XbmDecodeError::Parse(part, r.loc())),
        Some(b) => Ok(b),
    }
}

/// Skips spaces and tabs.
fn skip_blanks<E>(r: &mut TextReader<E>)
    requires
        old(r).wf(),
    ensures
        final(r).continues(*old(r)),
        final(r).pos() == old(r).pos() + grammar::run_len(
            old(r).text(),
            old(r).pos(),
            grammar::CharClass::Blank,
        ),
{
    loop
        invariant
            r.continues(*old(r)),
            r.pos() + grammar::run_len(r.text(), r.pos(), grammar::CharClass::Blank) == old(
                r,
            ).pos() + grammar::run_len(r.text(), old(r).pos(), grammar::CharClass::Blank),
        ensures
            r.pos() == r.text().len() || !grammar::is_blank(r.text()[r.pos()]),
        decreases r.text().len() - r.pos(),
    {
        match r.peek() {
            Some(b) => {
                if b == ' ' as u8 || b == '\t' as u8 {
                    r.next();
                } else {
                    break;
                }
            },
            None => {
                break;
            },
        }
    }
}

/// Reads a mixture of spaces and tabs, of at least one character. Other whitespace is not
/// permitted.
fn read_whitespace_gap<E>(r: &mut TextReader<E>, part: XbmPart) -> (res: Result<
    (),
    XbmDecodeError,
>)
    requires
        old(r).wf(),
    ensures
        final(r).continues(*old(r)),
        (final(r).pos(), res) == grammar::gap(old(r).text(), old(r).pos(), part),
{
    let b = read_byte(r, part)?;
    if !(b == ' ' as u8 || b == '\t' as u8) {
        return Err(XbmDecodeError::Parse(part, r.loc()));
    }
    skip_blanks(r);
    Ok(())
}

/// Reads a mixture of spaces, tabs and newlines. Other whitespace is not permitted.
fn read_optional_whitespace<E>(r: &mut TextReader<E>)
    requires
        old(r).wf(),
    ensures
        final(r).continues(*old(r)),
        final(r).pos() == grammar::skip_space(old(r).text(), old(r).pos()),
{
    loop
        invariant
            r.continues(*old(r)),
            grammar::skip_space(r.text(), r.pos()) == grammar::skip_space(
                r.text(),
                old(r).pos(),
            ),
        ensures
            r.pos() == r.text().len() || !grammar::is_space(r.text()[r.pos()]),
        decreases r.text().len() - r.pos(),
    {
        match r.peek() {
            Some(b) => {
                if b == ' ' as u8 || b == '\t' as u8 || b == '\n' as u8 {
                    r.next();
                } else {
                    break;
                }
            },
            None => {
                break;
            },
        }
    }
}

/// Reads a mixture of spaces and tabs, and the newline behind them.
fn read_to_newline<E>(r: &mut TextReader<E>, part: XbmPart) -> (res: Result<(), XbmDecodeError>)
    requires
        old(r).wf(),
    ensures
        final(r).continues(*old(r)),
        (final(r).pos(), res) == grammar::newline(old(r).text(), old(r).pos(), part),
{
    skip_blanks(r);
    if read_byte(r, part)? != '\n' as u8 {
        Err(XbmDecodeError::Parse(part, r.loc()))
    } else {
        Ok(())
    }
}

/// Reads a token of at most `limit` bytes, which ends before a space, a tab, a newline or the
/// end.
fn read_until_whitespace<E>(r: &mut TextReader<E>, limit: usize, part: XbmPart) -> (res: Result<
    Vec<u8>,
    XbmDecodeError,
>)
    requires
        old(r).wf(),
    ensures
        final(r).continues(*old(r)),
        (final(r).pos(), grammar::viewed(res)) == grammar::token(
            old(r).text(),
            old(r).pos(),
            limit as int,
            part,
        ),
{
    let mut token: Vec<u8> = Vec::new();
    loop
        invariant
            r.continues(*old(r)),
            token@.len() <= limit,
            r.pos() == old(r).pos() + token@.len(),
            token@ == r.text().subrange(old(r).pos(), r.pos()),
            token@.len() + grammar::run_len(r.text(), r.pos(), grammar::CharClass::Token)
                == grammar::run_len(r.text(), old(r).pos(), grammar::CharClass::Token),
        ensures
            r.pos() == r.text().len() || grammar::is_space(r.text()[r.pos()]),
        decreases r.text().len() - r.pos(),
    {
        match r.peek() {
            Some(b) => {
                if b == ' ' as u8 || b == '\t' as u8 || b == '\n' as u8 {
                    break;
                }
                if token.len() >= limit {
                    return Err(XbmDecodeError::Parse(part, r.loc()));
                }
                token.push(b);
                r.next();
                assert(token@ =~= r.text().subrange(old(r).pos(), r.pos()));
            },
            None => {
                break;
            },
        }
    }
    Ok(token)
}

/// Reads a hexadecimal digit in either case.
fn read_hex_digit<E>(r: &mut TextReader<E>, part: XbmPart) -> (res: Result<u8, XbmDecodeError>)
    requires
        old(r).wf(),
    ensures
        final(r).continues(*old(r)),
        (final(r).pos(), res) == grammar::hex_digit(old(r).text(), old(r).pos(), part),
{
    let b = read_byte(r, part)?;
    if '0' as u8 <= b && b <= '9' as u8 {
        Ok(b - '0' as u8)
    } else if 'A' as u8 <= b && b <= 'F' as u8 {
        Ok(b - 'A' as u8 + 10)
    } else if 'a' as u8 <= b && b <= 'f' as u8 {
        Ok(b - 'a' as u8 + 10)
    } else {
        Err(XbmDecodeError::Parse(part, r.loc()))
    }
}

/// Reads a byte in hexadecimal, such as `0xA1`.
fn read_hex_byte<E>(r: &mut TextReader<E>, part: XbmPart) -> (res: Result<u8, XbmDecodeError>)
    requires
        old(r).wf(),
    ensures
        final(r).continues(*old(r)),
        (final(r).pos(), res) == grammar::hex_byte(old(r).text(), old(r).pos(), part),
{
    if read_byte(r, part)? != '0' as u8 {
        return Err(XbmDecodeError::Parse(part, r.loc()));
    }
    let x = read_byte(r, part)?;
    if !(x == 'x' as u8 || x == 'X' as u8) {
        return Err(XbmDecodeError::Parse(part, r.loc()));
    }
    let high = read_hex_digit(r, part)?;
    let low = read_hex_digit(r, part)?;
    Ok(high * 16 + low)
}

/// Reads the end of a `#define` line: a gap, the text of a number, and a newline.
fn read_line_value<E>(r: &mut TextReader<E>, part: XbmPart) -> (res: Result<
    Vec<u8>,
    XbmDecodeError,
>)
    requires
        old(r).wf(),
    ensures
        final(r).continues(*old(r)),
        (final(r).pos(), grammar::viewed(res)) == grammar::line_value(
            old(r).text(),
            old(r).pos(),
            part,
        ),
{
    proof {
        reveal(grammar::line_value);
    }
    read_whitespace_gap(r, part)?;
    let digits = read_until_whitespace(r, grammar::MAX_INTEGER_LENGTH, part)?;
    read_to_newline(r, part)?;
    Ok(digits)
}

/// Reads the line `#define <name><suffix> <number>` and returns the text of the number.
fn read_define_line<E>(
    r: &mut TextReader<E>,
    name: &[u8],
    suffix: &[u8],
    part: XbmPart,
) -> (res: Result<Vec<u8>, XbmDecodeError>)
    requires
        old(r).wf(),
    ensures
        final(r).continues(*old(r)),
        (final(r).pos(), grammar::viewed(res)) == grammar::define_line(
            old(r).text(),
            old(r).pos(),
            name@,
            suffix@,
            part,
        ),
{
    proof {
        reveal(grammar::define_line);
        reveal_strlit("#define");
    }
    read_fixed_string(r, ascii_bytes("#define"), part)?;
    read_whitespace_gap(r, part)?;
    read_fixed_string(r, name, part)?;
    read_fixed_string(r, suffix, part)?;
    read_line_value(r, part)
}

/// Whether `s` ends with `suffix`.
fn ends_with(s: &[u8], suffix: &[u8]) -> (r: bool)
    ensures
        r == grammar::ends_with(s@, suffix@),
{
    if s.len() < suffix.len() {
        return false;
    }
    let start = s.len() - suffix.len();
    let ghost tail = s@.skip(start as int);
    let mut i: usize = 0;
    while i < suffix.len()
        invariant
            i <= suffix@.len(),
            start + suffix@.len() == s@.len() <= usize::MAX,
            tail == s@.skip(start as int),
            forall|j: int| 0 <= j < i ==> tail[j] == suffix@[j],
        decreases suffix@.len() - i,
    {
        if s[start + i] != suffix[i] {
            assert(tail[i as int] != suffix@[i as int]);
            return false;
        }
        assert(tail[i as int] == suffix@[i as int]);
        i += 1;
    }
    assert(tail =~= suffix@);
    true
}

/// Reads the line `#define <name>_width <width>` and returns the name and the text of the
/// width.
fn read_width_line<E>(r: &mut TextReader<E>) -> (res: Result<
    (Vec<u8>, Vec<u8>),
    XbmDecodeError,
>)
    requires
        old(r).wf(),
    ensures
        final(r).continues(*old(r)),
        (
            final(r).pos(),
            match res {
                Ok((name, digits)) => Ok((name@, digits@)),
                Err(e) => Err(e),
            },
        ) == grammar::width_line(old(r).text(), old(r).pos()),
{
    proof {
        reveal(grammar::width_line);
        reveal_strlit("#define");
        reveal_strlit("_width");
    }
    let part = XbmPart::Width;
    read_fixed_string(r, ascii_bytes("#define"), part)?;
    read_whitespace_gap(r, part)?;
    let mut symbol = read_until_whitespace(r, grammar::MAX_IDENTIFIER_LENGTH, part)?;
    if !ends_with(symbol.as_slice(), ascii_bytes("_width")) {
        return Err(XbmDecodeError::Parse(part, r.loc()));
    }
    let name_len = symbol.len() - 6;
    symbol.truncate(name_len);
    let digits = read_line_value(r, part)?;
    Ok((symbol, digits))
}

/// Reads the lines that give the hotspot, if they are there.
fn read_hotspot<E>(r: &mut TextReader<E>, name: &[u8]) -> (res: Result<
    Option<(i32, i32)>,
    XbmDecodeError,
>)
    requires
        old(r).wf(),
    ensures
        final(r).continues(*old(r)),
        (final(r).pos(), res) == grammar::hotspot_lines(old(r).text(), old(r).pos(), name@),
{
    proof {
        reveal(grammar::hotspot_lines);
        reveal_strlit("_x_hot");
        reveal_strlit("_y_hot");
    }
    let first = r.peek();
    if first == Some('#' as u8) {
        let digits = read_define_line(r, name, ascii_bytes("_x_hot"), XbmPart::HotspotX)?;
        let x = match parse_i32(digits.as_slice()) {
            Some(x) => x,
            None => {
                return Err(XbmDecodeError::DecodeInteger(XbmPart::HotspotX));
            },
        };
        let digits = read_define_line(r, name, ascii_bytes("_y_hot"), XbmPart::HotspotY)?;
        let y = match parse_i32(digits.as_slice()) {
            Some(y) => y,
            None => {
                return Err(XbmDecodeError::DecodeInteger(XbmPart::HotspotY));
            },
        };
        Ok(Some((x, y)))
    } else if first == Some('s' as u8) {
        Ok(None)
    } else {
        r.next();
        Err(XbmDecodeError::Parse(XbmPart::Array, r.loc()))
    }
}

/// Reads the element type of the array.
fn read_array_type<E>(r: &mut TextReader<E>) -> (res: Result<(), XbmDecodeError>)
    requires
        old(r).wf(),
    ensures
        final(r).continues(*old(r)),
        (final(r).pos(), res) == grammar::array_type(old(r).text(), old(r).pos()),
{
    proof {
        reveal_strlit("char");
        reveal_strlit("unsigned");
    }
    let part = XbmPart::Array;
    let first = r.peek();
    if first == Some('c' as u8) {
        read_fixed_string(r, ascii_bytes("char"), part)
    } else if first == Some('u' as u8) {
        read_fixed_string(r, ascii_bytes("unsigned"), part)?;
        read_whitespace_gap(r, part)?;
        read_fixed_string(r, ascii_bytes("char"), part)
    } else {
        r.next();
        Err(XbmDecodeError::Parse(part, r.loc()))
    }
}

/// Reads the start of the array, up to and including the opening brace.
fn read_array_start<E>(r: &mut TextReader<E>, name: &[u8]) -> (res: Result<(), XbmDecodeError>)
    requires
        old(r).wf(),
    ensures
        final(r).continues(*old(r)),
        (final(r).pos(), res) == grammar::array_start(old(r).text(), old(r).pos(), name@),
{
    proof {
        reveal(grammar::array_start);
        reveal_strlit("static");
        reveal_strlit("_bits[]");
        reveal_strlit("=");
        reveal_strlit("{");
    }
    let part = XbmPart::Array;
    read_fixed_string(r, ascii_bytes("static"), part)?;
    read_whitespace_gap(r, part)?;
    read_array_type(r)?;
    read_whitespace_gap(r, part)?;
    read_fixed_string(r, name, part)?;
    read_fixed_string(r, ascii_bytes("_bits[]"), part)?;
    read_whitespace_gap(r, part)?;
    read_fixed_string(r, ascii_bytes("="), part)?;
    read_whitespace_gap(r, part)?;
    read_fixed_string(r, ascii_bytes("{"), part)
}

/// Reads the header up to and including the first opening brace, and returns the name of the
/// image and its properties.
///
/// The header consists of three to five lines; the two for the hotspot may be missing. The
/// name may be empty, and need not be text.
///
/// ```text
/// #define <name>_width <width>
/// #define <name>_height <height>
/// #define <name>_x_hot <x>
/// #define <name>_y_hot <y>
/// static <type> <name>_bits[] = { ...
/// ```
pub fn read_xbm_header<E>(r: &mut TextReader<E>) -> (res: Result<
    (Vec<u8>, XbmHeaderData),
    XbmDecodeError,
>)
    requires
        old(r).wf(),
    ensures
        final(r).continues(*old(r)),
        (
            final(r).pos(),
            match res {
                Ok((name, header)) => Ok((name@, header)),
                Err(e) => Err(e),
            },
        ) == grammar::header(old(r).text(), old(r).pos()),
{
    proof {
        reveal_strlit("_height");
    }
    let (name, digits) = read_width_line(r)?;
    let width = match parse_u32(digits.as_slice()) {
        Some(width) => width,
        None => {
            return Err(XbmDecodeError::DecodeInteger(XbmPart::Width));
        },
    };
    if width == 0 {
        return Err(XbmDecodeError::ZeroWidth);
    }
    let digits = read_define_line(
        r,
        name.as_slice(),
        ascii_bytes("_height"),
        XbmPart::Height,
    )?;
    let height = match parse_u32(digits.as_slice()) {
        Some(height) => height,
        None => {
            return Err(XbmDecodeError::DecodeInteger(XbmPart::Height));
        },
    };
    if height == 0 {
        return Err(XbmDecodeError::ZeroHeight);
    }
    let hotspot = read_hotspot(r, name.as_slice())?;
    read_array_start(r, name.as_slice())?;
    Ok((name, XbmHeaderData { width, height, hotspot }))
}

/// Decodes the text of an image step by step: first the header, then one byte of the array
/// after the other, and in the end what follows the array.
#[derive(Debug)]
pub struct XbmStreamDecoder<E> {
    pub r: TextReader<E>,
    /// The number of bytes of the array that have been read.
    pub current_position: u64,
    pub header: XbmHeaderData,
}

impl<E> XbmStreamDecoder<E> {
    /// What holds of every decoder.
    pub open spec fn wf(self) -> bool {
        &&& self.r.wf()
        &&& self.header.width > 0
        &&& self.header.height > 0
        &&& self.current_position <= self.header.data_size()
    }

    /// Reads the header. Where that fails, the reader comes back with the error.
    pub fn new(source: ByteSource<E>) -> (res: Result<
        XbmStreamDecoder<E>,
        (IoAdapter<E>, XbmDecodeError),
    >)
        requires
            source.wf(),
        ensures
            match (grammar::header(source.rest(), 0), res) {
                ((p, Ok((name, header))), Ok(d)) => {
                    &&& d.wf()
                    &&& d.header == header
                    &&& d.current_position == 0
                    &&& d.r.pos() == p
                    &&& d.r.text() == source.rest()
                    &&& d.r.fault() == source.fault
                },
                ((p, Err(e)), Err((inner, err))) => {
                    &&& err == e
                    &&& inner.error == (if p == source.rest().len() {
                        source.fault
                    } else {
                        None
                    })
                },
                _ => false,
            },
    {
        let mut r = TextReader::new(source);
        match read_xbm_header(&mut r) {
            Err(e) => Err((r.inner, e)),
            Ok((_, header)) => Ok(XbmStreamDecoder { r, current_position: 0, header }),
        }
    }

    /// Reads the next byte of the array. Behind the last one, this checks what follows the
    /// array and then returns `None`.
    ///
    /// The image is stored in rows of `ceil(width / 8)` bytes, so that pixel `i` of a row is
    /// bit `i % 8` (counting from the least significant one) of byte `i / 8` of the row. A
    /// set bit is black.
    pub fn next_byte(&mut self) -> (res: Result<Option<u8>, XbmDecodeError>)
        requires
            old(self).wf(),
        ensures
            final(self).wf(),
            final(self).header == old(self).header,
            final(self).r.continues(old(self).r),
            final(self).current_position == (if old(self).current_position < old(
                self,
            ).header.data_size() {
                old(self).current_position + 1
            } else {
                old(self).current_position as int
            }),
            (final(self).r.pos(), res) == grammar::next_element(
                old(self).r.text(),
                old(self).r.pos(),
                old(self).current_position as nat,
                old(self).header.data_size(),
            ),
    {
        proof {
            reveal_with_fuel(grammar::matched, 2);
            reveal(grammar::next_element);
            reveal_strlit(",");
            reveal_strlit("}");
            reveal_strlit(";");
            assert(self.header.data_size() <= 0xffff_ffff * 0xffff_ffff) by (nonlinear_arith)
                requires
                    self.header.data_size() == ((self.header.width as nat + 7) / 8)
                        * self.header.height as nat,
                    self.header.width <= 0xffff_ffff,
                    self.header.height <= 0xffff_ffff,
            ;
        }
        let row_bytes = (self.header.width as u64 + 7) / 8;
        let data_size = row_bytes * self.header.height as u64;
        if self.current_position < data_size {
            let first = self.current_position == 0;
            self.current_position = self.current_position + 1;
            if !first {
                read_optional_whitespace(&mut self.r);
                read_fixed_string(&mut self.r, ascii_bytes(","), XbmPart::Data)?;
            }
            read_optional_whitespace(&mut self.r);
            let b = read_hex_byte(&mut self.r, XbmPart::Data)?;
            Ok(Some(b))
        } else {
            read_optional_whitespace(&mut self.r);
            let first = self.r.peek();
            if first == Some(',' as u8) {
                read_fixed_string(&mut self.r, ascii_bytes(","), XbmPart::Data)?;
                read_optional_whitespace(&mut self.r);
            } else if first != Some('}' as u8) {
                self.r.next();
                return Err(XbmDecodeError::Parse(XbmPart::ArrayEnd, self.r.loc()));
            }
            read_fixed_string(&mut self.r, ascii_bytes("}"), XbmPart::ArrayEnd)?;
            read_optional_whitespace(&mut self.r);
            read_fixed_string(&mut self.r, ascii_bytes(";"), XbmPart::ArrayEnd)?;
            read_optional_whitespace(&mut self.r);
            if self.r.next().is_some() {
                return Err(XbmDecodeError::Parse(XbmPart::Trailing, self.r.loc()));
            }
            Ok(None)
        }
    }
}

/// How far a decoder has come.
#[derive(Debug)]
pub enum XbmDecoderState<E> {
    /// Nothing has been read.
    Init(ByteSource<E>),
    /// The header has been read.
    Header(XbmStreamDecoder<E>),
    /// The image has been read, or reading has failed.
    Done,
}

/// A decoder for X BitMap images.
#[derive(Debug)]
pub struct XbmDecoder<E> {
    pub state: XbmDecoderState<E>,
}

/// The error that is set aside in `err`, if there is one; else what `res` says.
fn apply_after<T, E>(res: Result<T, XbmDecodeError>, err: &mut Option<E>) -> (r: Result<
    T,
    CodecError<E>,
>)
    ensures
        *final(err) == None::<E>,
        r == (match (*old(err), res) {
            (Some(f), _) => Err(CodecError::IoError(IoFailure::Reader(f))),
            (None, Ok(v)) => Ok(v),
            (None, Err(e)) => Err(CodecError::Decoding(DecodingError::Xbm(e))),
        }),
{
    if let Some(f) = err.take() {
        return Err(CodecError::IoError(IoFailure::Reader(f)));
    }
    match res {
        Ok(v) => Ok(v),
        Err(e) => Err(CodecError::Decoding(DecodingError::Xbm(e))),
    }
}

impl XbmHeaderData {
    /// The layout of the image.
    pub open spec fn layout(self) -> ImageLayout {
        ImageLayout { color: ColorType::L8, width: self.width, height: self.height }
    }
}

impl<E> XbmDecoder<E> {
    /// What holds of every decoder.
    pub open spec fn wf(self) -> bool {
        match self.state {
            XbmDecoderState::Init(source) => source.wf(),
            XbmDecoderState::Header(base) => base.wf() && base.current_position == 0,
            XbmDecoderState::Done => true,
        }
    }

    /// The state that reading the header leads to, if it succeeds. Readers are compared by
    /// what they have to give.
    pub open spec fn opened(self, text: Seq<u8>, fault: Option<E>) -> bool {
        match (self.state, grammar::header(text, 0)) {
            (XbmDecoderState::Header(base), (p, Ok((_, header)))) => {
                &&& base.header == header
                &&& base.current_position == 0
                &&& base.r.pos() == p
                &&& base.r.text() == text
                &&& base.r.fault() == fault
            },
            _ => false,
        }
    }

    /// What `peek_layout` makes of the decoder `before`.
    pub open spec fn peeked(
        before: XbmDecoder<E>,
        after: XbmDecoder<E>,
        r: Result<ImageLayout, CodecError<E>>,
    ) -> bool {
        match before.state {
            XbmDecoderState::Init(source) => {
                let parsed = grammar::header(source.rest(), 0);
                match parsed.1 {
                    Ok((_, header)) => {
                        &&& r == Ok::<ImageLayout, CodecError<E>>(header.layout())
                        &&& after.opened(source.rest(), source.fault)
                    },
                    Err(_) => {
                        &&& r is Err
                        &&& r->Err_0 == grammar::outcome(
                            source.rest(),
                            parsed,
                            source.fault,
                        )->Err_0
                        &&& after.state is Done
                    },
                }
            },
            XbmDecoderState::Header(base) => {
                &&& r == Ok::<ImageLayout, CodecError<E>>(base.header.layout())
                &&& after == before
            },
            XbmDecoderState::Done => {
                &&& r == Err::<ImageLayout, CodecError<E>>(
                    CodecError::Parameter(ParameterErrorKind::NoMoreData),
                )
                &&& after == before
            },
        }
    }

    /// What `read_image` makes of the buffer, for the decoder `before`.
    pub open spec fn taken(
        before: XbmDecoder<E>,
        buf0: Seq<u8>,
        buf1: Seq<u8>,
        r: Result<(), CodecError<E>>,
    ) -> bool {
        match before.state {
            XbmDecoderState::Init(source) => {
                let parsed = grammar::header(source.rest(), 0);
                match parsed {
                    (p, Ok((_, header))) => (buf1, r) == grammar::image_read(
                        source.rest(),
                        p,
                        header,
                        source.fault,
                        buf0,
                    ),
                    (_, Err(_)) => {
                        &&& buf1 == buf0
                        &&& r is Err
                        &&& r->Err_0 == grammar::outcome(
                            source.rest(),
                            parsed,
                            source.fault,
                        )->Err_0
                    },
                }
            },
            XbmDecoderState::Header(base) => (buf1, r) == grammar::image_read(
                base.r.text(),
                base.r.pos(),
                base.header,
                base.r.fault(),
                buf0,
            ),
            XbmDecoderState::Done => {
                &&& buf1 == buf0
                &&& r == Err::<(), CodecError<E>>(
                    CodecError::Parameter(ParameterErrorKind::NoMoreData),
                )
            },
        }
    }

    /// A decoder that has not read anything.
    pub fn new(source: ByteSource<E>) -> (r: XbmDecoder<E>)
        requires
            source.wf(),
        ensures
            r.wf(),
            r.state == XbmDecoderState::Init(source),
    {
        XbmDecoder { state: XbmDecoderState::Init(source) }
    }

    /// The hotspot of the image, if the image provides one. `peek_layout` has to be called
    /// before.
    pub fn hotspot(&self) -> (r: Result<Option<(i32, i32)>, CodecError<E>>)
        ensures
            r == (match self.state {
                XbmDecoderState::Header(base) => Ok(base.header.hotspot),
                _ => Err(CodecError::<E>::Parameter(ParameterErrorKind::NeedPeekLayout)),
            }),
    {
        match &self.state {
            XbmDecoderState::Header(base) => Ok(base.header.hotspot),
            _ => Err(CodecError::Parameter(ParameterErrorKind::NeedPeekLayout)),
        }
    }

    /// Reads the header, unless it has been read, and returns the layout of the image.
    pub fn peek_layout(&mut self) -> (r: Result<ImageLayout, CodecError<E>>)
        requires
            old(self).wf(),
        ensures
            final(self).wf(),
            Self::peeked(*old(self), *final(self), r),
    {
        let mut state = XbmDecoderState::Done;
        std::mem::swap(&mut self.state, &mut state);
        match state {
            XbmDecoderState::Init(source) => {
                match XbmStreamDecoder::new(source) {
                    Err((mut inner, e)) => {
                        return apply_after(Err(e), &mut inner.error);
                    },
                    Ok(base) => {
                        self.state = XbmDecoderState::Header(base);
                    },
                }
            },
            _ => {
                self.state = state;
            },
        }
        match &self.state {
            XbmDecoderState::Header(base) => Ok(
                ImageLayout {
                    color: ColorType::L8,
                    width: base.header.width,
                    height: base.header.height,
                },
            ),
            _ => Err(CodecError::Parameter(ParameterErrorKind::NoMoreData)),
        }
    }

    /// The colour type of the file: one bit for each pixel.
    pub fn original_color_type(&mut self) -> (r: Result<ExtendedColorType, CodecError<E>>)
        ensures
            *final(self) == *old(self),
            r == Ok::<ExtendedColorType, CodecError<E>>(ExtendedColorType::L1),
    {
        Ok(ExtendedColorType::L1)
    }

    /// What can be known of the metadata: the format has none.
    pub fn attributes(&self) -> (r: DecoderAttributes)
        ensures
            r == crate::types::plain_attributes(),
    {
        metadata_free_attributes()
    }
}

/// Writes the pixels that `val` stands for into a row of `width` pixels, from column `c` on.
fn unpack_byte(
    buf: &mut [u8],
    width: usize,
    row: usize,
    c: usize,
    val: u8,
    Ghost(bytes): Ghost<Seq<u8>>,
    Ghost(rest): Ghost<Seq<u8>>,
)
    requires
        old(buf)@ == grammar::unpacked(bytes, width as nat, rest),
        row < old(buf)@.len() / width as nat,
        c < width,
        c % 8 == 0,
        bytes.len() == row * grammar::row_bytes(width as nat) + c / 8,
    ensures
        final(buf)@ == grammar::unpacked(bytes.push(val), width as nat, rest),
{
    let ghost w = width as nat;
    let ghost before = buf@;
    let ghost rows = (rest.len() / w) as int;
    let len = buf.len();
    proof {
        assert(row * w + w <= rows * w && rows * w <= rest.len()) by (nonlinear_arith)
            requires
                row + 1 <= rows,
                rows == rest.len() as int / w as int,
                w > 0,
        ;
    }
    assert(row * w + w <= len);
    let start = row * width + c;
    let mut i: usize = 0;
    while i < 8 && i < width - c
        invariant
            w == width,
            c < width,
            i <= 8,
            i <= width - c,
            start == row * width + c,
            row * w + w <= buf@.len() <= usize::MAX,
            buf@.len() == before.len(),
            forall|p: int|
                0 <= p < buf@.len() ==> #[trigger] buf@[p] == (if start <= p < start + i {
                    grammar::shade(val, (p - start) as nat)
                } else {
                    before[p]
                }),
        decreases 8 - i,
    {
        let mask = 1u8 << (i as u8);
        buf[start + i] = if val & mask == 0 {
            0xff
        } else {
            0
        };
        i += 1;
    }
    proof {
        let after = grammar::unpacked(bytes.push(val), w, rest);
        assert forall|p: int| 0 <= p < buf@.len() implies #[trigger] buf@[p] == after[p] by {
            grammar::lemma_slot(p, w, row as int, c as int);
            if start <= p < start + i {
                assert((p - row * w) % 8 == p - start);
            }
        }
        assert(buf@ =~= after);
    }
}

impl<E> XbmDecoder<E> {
    /// Reads the image into `buf`, one byte for each pixel: `0` for black and `0xff` for
    /// white.
    ///
    /// Whole rows are read, as many as fit into `buf`. If they are not all rows of the image,
    /// this fails with `DimensionMismatch`.
    pub fn read_image(&mut self, buf: &mut [u8]) -> (r: Result<(), CodecError<E>>)
        requires
            old(self).wf(),
        ensures
            final(self).wf(),
            final(self).state is Done,
            Self::taken(*old(self), old(buf)@, final(buf)@, r),
    {
        self.peek_layout()?;
        let mut state = XbmDecoderState::Done;
        std::mem::swap(&mut self.state, &mut state);
        match state {
            XbmDecoderState::Header(base) => read_rows(base, buf),
            _ => Err(CodecError::Parameter(ParameterErrorKind::NoMoreData)),
        }
    }
}

/// Reads the next byte of the array. An error of the source takes precedence.
fn next_or_fault<E>(base: &mut XbmStreamDecoder<E>) -> (res: Result<Option<u8>, CodecError<E>>)
    requires
        old(base).wf(),
    ensures
        res == grammar::outcome(
            old(base).r.text(),
            grammar::next_element(
                old(base).r.text(),
                old(base).r.pos(),
                old(base).current_position as nat,
                old(base).header.data_size(),
            ),
            old(base).r.fault(),
        ),
        res is Ok ==> {
            &&& final(base).wf()
            &&& final(base).header == old(base).header
            &&& final(base).r.continues(old(base).r)
            &&& final(base).r.pos() == grammar::next_element(
                old(base).r.text(),
                old(base).r.pos(),
                old(base).current_position as nat,
                old(base).header.data_size(),
            ).0
        },
        res matches Ok(Some(_)) ==> final(base).current_position == old(base).current_position + 1,
{
    proof {
        reveal(grammar::next_element);
    }
    let res = base.next_byte();
    apply_after(res, &mut base.r.inner.error)
}

/// Reads as many rows as fit into `buf`, and what follows them.
fn read_rows<E>(start: XbmStreamDecoder<E>, buf: &mut [u8]) -> (r: Result<(), CodecError<E>>)
    requires
        start.wf(),
        start.current_position == 0,
    ensures
        (final(buf)@, r) == grammar::image_read(
            start.r.text(),
            start.r.pos(),
            start.header,
            start.r.fault(),
            old(buf)@,
        ),
{
    let mut base = start;
    let width = base.header.width as usize;
    let rows = buf.len() / width;
    let ghost w = width as nat;
    let ghost rb = grammar::row_bytes(w);
    let ghost n = (old(buf)@.len() / w) * rb;
    let ghost text = base.r.text();
    let ghost fault = base.r.fault();
    let ghost size = base.header.data_size();
    let ghost all = grammar::elements(text, start.r.pos(), 0, n, size, fault);
    let ghost mut bytes = Seq::<u8>::empty();
    assert(buf@ =~= grammar::unpacked(bytes, w, old(buf)@)) by {
        assert forall|p: int| 0 <= p < buf@.len() implies grammar::slot(p, w) >= 0 by {
            assert(grammar::slot(p, w) >= 0) by (nonlinear_arith)
                requires
                    grammar::slot(p, w) == (p / w as int) * rb + (p % w as int) / 8,
                    p >= 0,
                    w > 0,
                    rb >= 0,
            ;
        }
    }
    let mut row: usize = 0;
    while row < rows
        invariant
            row <= rows,
            w == width == start.header.width,
            w > 0,
            rows == old(buf)@.len() / w,
            rb == grammar::row_bytes(w),
            n == rows * rb,
            all == grammar::elements(text, start.r.pos(), 0, n, size, fault),
            base.wf(),
            base.header == start.header,
            base.r.continues(start.r),
            text == start.r.text(),
            fault == start.r.fault(),
            size == start.header.data_size(),
            base.current_position == bytes.len() == row * rb,
            buf@ == grammar::unpacked(bytes, w, old(buf)@),
            bytes.len() <= n,
            all == ({
                let (more, end, err) = grammar::elements(
                    text,
                    base.r.pos(),
                    bytes.len(),
                    (n - bytes.len()) as nat,
                    size,
                    fault,
                );
                (bytes + more, end, err)
            }),
        decreases rows - row,
    {
        let mut c: usize = 0;
        while c < width
            invariant
                row < rows,
                c <= width,
                c % 8 == 0 || c == width,
                w == width == start.header.width,
                w > 0,
                rows == old(buf)@.len() / w,
                rb == grammar::row_bytes(w),
                n == rows * rb,
                base.wf(),
                base.header == start.header,
                base.r.continues(start.r),
                text == start.r.text(),
                fault == start.r.fault(),
                size == start.header.data_size(),
                base.current_position == bytes.len(),
                bytes.len() == row * rb + (c + 7) / 8,
                buf@ == grammar::unpacked(bytes, w, old(buf)@),
                bytes.len() <= n,
                all == grammar::elements(text, start.r.pos(), 0, n, size, fault),
                all == ({
                    let (more, end, err) = grammar::elements(
                        text,
                        base.r.pos(),
                        bytes.len(),
                        (n - bytes.len()) as nat,
                        size,
                        fault,
                    );
                    (bytes + more, end, err)
                }),
            decreases width - c,
        {
            assert(row * rb + rb <= n) by (nonlinear_arith)
                requires
                    row + 1 <= rows,
                    n == rows * rb,
                    rb >= 0,
            ;
            let ghost before = base;
            match next_or_fault(&mut base) {
                Ok(Some(val)) => {
                    unpack_byte(buf, width, row, c, val, Ghost(bytes), Ghost(old(buf)@));
                    proof {
                        let more = grammar::elements(
                            text,
                            base.r.pos(),
                            bytes.len() + 1,
                            (n - bytes.len() - 1) as nat,
                            size,
                            fault,
                        ).0;
                        assert(bytes + (seq![val] + more) =~= bytes.push(val) + more);
                        bytes = bytes.push(val);
                    }
                },
                Ok(None) => {
                    assert(bytes + Seq::<u8>::empty() =~= bytes);
                    return Err(CodecError::Parameter(ParameterErrorKind::DimensionMismatch));
                },
                Err(e) => {
                    assert(bytes + Seq::<u8>::empty() =~= bytes);
                    return Err(e);
                },
            }
            c = if width - c <= 8 {
                width
            } else {
                c + 8
            };
        }
        assert(row * rb + rb == (row + 1) * rb) by (nonlinear_arith);
        row += 1;
    }
    assert(bytes + Seq::<u8>::empty() =~= bytes);
    match next_or_fault(&mut base) {
        Ok(Some(_)) => Err(CodecError::Parameter(ParameterErrorKind::DimensionMismatch)),
        Ok(None) => Ok(()),
        Err(e) => Err(e),
    }
}

} // verus!
