//! How an image is written as text, and that reading the text gives the image back.

use vstd::prelude::*;

use super::grammar;
use super::{
    TextLocation, TextReader, XbmDecodeError, XbmDecoder, XbmDecoderState, XbmHeaderData, XbmPart,
};
use crate::decimal;
use crate::source::ByteSource;
use crate::types::{CodecError, DecodingError, ImageLayout, IoFailure, ParameterErrorKind};

verus! {

/// How the parts of a text that are left to its writer are written.
#[verifier::ext_equal]
pub struct Style {
    /// The gaps between the words of the header.
    pub gaps: spec_fn(int) -> Seq<u8>,
    /// What stands before the ends of the lines of the header.
    pub ends: spec_fn(int) -> Seq<u8>,
    /// Whether the elements of the array are `unsigned`.
    pub unsigned: bool,
    /// What stands around the elements of the array and the commas.
    pub spaces: spec_fn(int) -> Seq<u8>,
    /// Whether a comma follows the last element.
    pub last_comma: bool,
}

/// Whether `s` is made of characters of a class.
pub open spec fn all_in(s: Seq<u8>, c: grammar::CharClass) -> bool {
    forall|i: int| 0 <= i < s.len() ==> grammar::in_class(c, #[trigger] s[i])
}

impl Style {
    /// Whether gaps are made of blanks, and spaces of spaces, tabs and newlines.
    pub open spec fn wf(self) -> bool {
        &&& forall|i: int|
            {
                &&& (#[trigger] (self.gaps)(i)).len() > 0
                &&& all_in((self.gaps)(i), grammar::CharClass::Blank)
            }
        &&& forall|i: int| all_in(#[trigger] (self.ends)(i), grammar::CharClass::Blank)
        &&& forall|i: int| all_in(#[trigger] (self.spaces)(i), grammar::CharClass::Space)
    }
}

/// The line `#define <name><suffix> <digits>`.
pub open spec fn define_text(
    style: Style,
    k: int,
    name: Seq<u8>,
    suffix: Seq<u8>,
    digits: Seq<u8>,
) -> Seq<u8> {
    decimal::ascii("#define"@) + ((style.gaps)(2 * k) + (name + (suffix + ((style.gaps)(2 * k + 1)
        + (digits + ((style.ends)(k) + seq!['\n' as u8]))))))
}

/// The lines for the hotspot, if there is one.
pub open spec fn hotspot_text(
    style: Style,
    name: Seq<u8>,
    hotspot: Option<(i32, i32)>,
) -> Seq<u8> {
    match hotspot {
        None => Seq::empty(),
        Some((x, y)) => define_text(
            style,
            2,
            name,
            decimal::ascii("_x_hot"@),
            decimal::signed_decimal(x as int),
        ) + define_text(
            style,
            3,
            name,
            decimal::ascii("_y_hot"@),
            decimal::signed_decimal(y as int),
        ),
    }
}

/// The element type of the array.
pub open spec fn type_text(style: Style) -> Seq<u8> {
    if style.unsigned {
        decimal::ascii("unsigned"@) + ((style.gaps)(9) + decimal::ascii("char"@))
    } else {
        decimal::ascii("char"@)
    }
}

/// The start of the array.
pub open spec fn array_text(style: Style, name: Seq<u8>) -> Seq<u8> {
    decimal::ascii("static"@) + ((style.gaps)(8) + (type_text(style) + ((style.gaps)(10) + (name
        + (decimal::ascii("_bits[]"@) + ((style.gaps)(11) + (decimal::ascii("="@) + ((style.gaps)(
        12,
    ) + decimal::ascii("{"@)))))))))
}

/// The header.
pub open spec fn header_text(style: Style, name: Seq<u8>, header: XbmHeaderData) -> Seq<u8> {
    define_text(
        style,
        0,
        name,
        decimal::ascii("_width"@),
        decimal::decimal(header.width as nat),
    ) + (define_text(
        style,
        1,
        name,
        decimal::ascii("_height"@),
        decimal::decimal(header.height as nat),
    ) + (hotspot_text(style, name, header.hotspot) + array_text(style, name)))
}

/// Whether the text from `pos` on is `s`.
spec fn follows(text: Seq<u8>, pos: int, s: Seq<u8>) -> bool {
    &&& 0 <= pos <= text.len()
    &&& text.skip(pos) == s
}

/// The text behind its first part.
proof fn lemma_follows(text: Seq<u8>, pos: int, a: Seq<u8>, b: Seq<u8>)
    requires
        follows(text, pos, a + b),
    ensures
        follows(text, pos + a.len(), b),
        forall|i: int| 0 <= i < a.len() ==> #[trigger] text[pos + i] == a[i],
        a.len() > 0 ==> text[pos] == a[0],
        b.len() > 0 ==> text[pos + a.len()] == b[0],
        text.len() == pos + a.len() + b.len(),
{
    let s = text.skip(pos);
    assert(s.skip(a.len() as int) =~= b);
    assert(text.skip(pos + a.len()) =~= s.skip(a.len() as int));
    assert forall|i: int| 0 <= i < a.len() implies #[trigger] text[pos + i] == a[i] by {
        assert(text[pos + i] == s[i]);
    }
    if a.len() > 0 {
        assert(text[pos + 0] == a[0]);
    }
    if b.len() > 0 {
        assert(text[pos + a.len()] == s[a.len() as int]);
    }
}

/// A fixed string is read where it stands.
proof fn lemma_fixed(text: Seq<u8>, pos: int, s: Seq<u8>, rest: Seq<u8>, part: XbmPart)
    requires
        follows(text, pos, s + rest),
    ensures
        grammar::fixed(text, pos, s, part) == (pos + s.len(), Ok::<(), XbmDecodeError>(())),
        follows(text, pos + s.len(), rest),
{
    lemma_follows(text, pos, s, rest);
    lemma_matched(text, pos, s, 0);
}

/// All of `s` is matched where it stands.
proof fn lemma_matched(text: Seq<u8>, pos: int, s: Seq<u8>, i: int)
    requires
        0 <= pos,
        0 <= i <= s.len(),
        pos + s.len() <= text.len(),
        forall|j: int| 0 <= j < s.len() ==> #[trigger] text[pos + j] == s[j],
    ensures
        grammar::matched(text, pos, s, i) == s.len(),
    decreases s.len() - i,
{
    if i < s.len() {
        lemma_matched(text, pos, s, i + 1);
    }
}

/// A run of characters of a class ends where the next character is not of that class.
proof fn lemma_run(text: Seq<u8>, pos: int, s: Seq<u8>, rest: Seq<u8>, c: grammar::CharClass)
    requires
        follows(text, pos, s + rest),
        all_in(s, c),
        rest.len() > 0 ==> !grammar::in_class(c, rest[0]),
    ensures
        grammar::run_len(text, pos, c) == s.len(),
        follows(text, pos + s.len(), rest),
    decreases s.len(),
{
    lemma_follows(text, pos, s, rest);
    if s.len() > 0 {
        assert(grammar::in_class(c, s[0]));
        let tail = s.drop_first();
        assert(seq![s[0]] + (tail + rest) =~= s + rest);
        lemma_follows(text, pos, seq![s[0]], tail + rest);
        assert forall|i: int| 0 <= i < tail.len() implies grammar::in_class(
            c,
            #[trigger] tail[i],
        ) by {
            assert(tail[i] == s[i + 1]);
        }
        lemma_run(text, pos + 1, tail, rest, c);
    }
}

/// A gap is read where it stands.
proof fn lemma_gap(text: Seq<u8>, pos: int, s: Seq<u8>, rest: Seq<u8>, part: XbmPart)
    requires
        follows(text, pos, s + rest),
        s.len() > 0,
        all_in(s, grammar::CharClass::Blank),
        rest.len() > 0 ==> !grammar::is_blank(rest[0]),
    ensures
        grammar::gap(text, pos, part) == (pos + s.len(), Ok::<(), XbmDecodeError>(())),
        follows(text, pos + s.len(), rest),
{
    lemma_run(text, pos, s, rest, grammar::CharClass::Blank);
    lemma_follows(text, pos, s, rest);
    assert(grammar::in_class(grammar::CharClass::Blank, s[0]));
}

/// The text of a number has no spaces, and is not too long to be read.
proof fn lemma_digits(x: int)
    requires
        -0x8000_0000 <= x <= 0xffff_ffff,
    ensures
        0 < decimal::signed_decimal(x).len() <= 11,
        all_in(decimal::signed_decimal(x), grammar::CharClass::Token),
{
    let n = if x < 0 {
        (-x) as nat
    } else {
        x as nat
    };
    decimal::lemma_decimal(n);
    assert(decimal::decimal(n).len() <= 10) by {
        reveal_with_fuel(decimal::decimal, 11);
    }
    let s = decimal::signed_decimal(x);
    assert forall|i: int| 0 <= i < s.len() implies grammar::in_class(
        grammar::CharClass::Token,
        #[trigger] s[i],
    ) by {
        if x < 0 {
            if i > 0 {
                assert(s[i] == decimal::decimal(n)[i - 1]);
                assert(decimal::is_digit(decimal::decimal(n)[i - 1]));
            }
        } else {
            assert(decimal::is_digit(decimal::decimal(n)[i]));
        }
    }
}

/// The line `#define <name><suffix> <number>` is read where it stands.
proof fn lemma_define_line(
    text: Seq<u8>,
    pos: int,
    style: Style,
    k: int,
    name: Seq<u8>,
    suffix: Seq<u8>,
    x: int,
    rest: Seq<u8>,
    part: XbmPart,
)
    requires
        style.wf(),
        all_in(name, grammar::CharClass::Token),
        suffix.len() > 0,
        !grammar::is_blank(suffix[0]),
        -0x8000_0000 <= x <= 0xffff_ffff,
        follows(
            text,
            pos,
            define_text(style, k, name, suffix, decimal::signed_decimal(x)) + rest,
        ),
    ensures
        ({
            let end = pos + define_text(
                style,
                k,
                name,
                suffix,
                decimal::signed_decimal(x),
            ).len();
            &&& grammar::define_line(text, pos, name, suffix, part) == (
                end,
                Ok::<Seq<u8>, XbmDecodeError>(decimal::signed_decimal(x)),
            )
            &&& follows(text, end, rest)
        }),
{
    reveal(grammar::define_line);
    let digits = decimal::signed_decimal(x);
    let word = decimal::ascii("#define"@);
    let g0 = (style.gaps)(2 * k);
    let g1 = (style.gaps)(2 * k + 1);
    let value = g1 + (digits + ((style.ends)(k) + (seq!['\n' as u8] + rest)));
    assert(define_text(style, k, name, suffix, digits) + rest =~= word + (g0 + (name + (suffix
        + value))));
    lemma_fixed(text, pos, word, g0 + (name + (suffix + value)), part);
    assert(!grammar::is_blank((name + (suffix + value))[0])) by {
        if name.len() > 0 {
            assert(grammar::in_class(grammar::CharClass::Token, name[0]));
        }
    }
    lemma_gap(text, pos + word.len(), g0, name + (suffix + value), part);
    let p = pos + word.len() + g0.len();
    lemma_fixed(text, p, name, suffix + value, part);
    lemma_fixed(text, p + name.len(), suffix, value, part);
    lemma_line_value(text, p + name.len() + suffix.len(), style, k, x, rest, part);
}

/// The end of a `#define` line is read where it stands.
proof fn lemma_line_value(
    text: Seq<u8>,
    pos: int,
    style: Style,
    k: int,
    x: int,
    rest: Seq<u8>,
    part: XbmPart,
)
    requires
        style.wf(),
        -0x8000_0000 <= x <= 0xffff_ffff,
        follows(
            text,
            pos,
            (style.gaps)(2 * k + 1) + (decimal::signed_decimal(x) + ((style.ends)(k) + (
            seq!['\n' as u8] + rest))),
        ),
    ensures
        ({
            let end = pos + (style.gaps)(2 * k + 1).len() + decimal::signed_decimal(x).len() + (
            style.ends)(k).len() + 1;
            &&& grammar::line_value(text, pos, part) == (
                end,
                Ok::<Seq<u8>, XbmDecodeError>(decimal::signed_decimal(x)),
            )
            &&& follows(text, end, rest)
        }),
{
    reveal(grammar::line_value);
    let digits = decimal::signed_decimal(x);
    let g = (style.gaps)(2 * k + 1);
    let e = (style.ends)(k);
    let nl = seq!['\n' as u8];
    lemma_digits(x);
    assert(grammar::in_class(grammar::CharClass::Token, digits[0]));
    lemma_gap(text, pos, g, digits + (e + (nl + rest)), part);
    let p = pos + g.len();
    let after = e + (nl + rest);
    assert(grammar::is_space(after[0])) by {
        if e.len() > 0 {
            assert(grammar::in_class(grammar::CharClass::Blank, e[0]));
        }
    }
    lemma_run(text, p, digits, after, grammar::CharClass::Token);
    lemma_follows(text, p, digits, after);
    assert(text.subrange(p, p + digits.len()) =~= digits);
    let q = p + digits.len();
    lemma_run(text, q, e, nl + rest, grammar::CharClass::Blank);
    lemma_follows(text, q + e.len(), nl, rest);
}

/// The line for the width is read where it stands.
proof fn lemma_width_line(
    text: Seq<u8>,
    pos: int,
    style: Style,
    name: Seq<u8>,
    width: u32,
    rest: Seq<u8>,
)
    requires
        style.wf(),
        all_in(name, grammar::CharClass::Token),
        name.len() + 6 <= 256,
        follows(
            text,
            pos,
            define_text(
                style,
                0,
                name,
                decimal::ascii("_width"@),
                decimal::decimal(width as nat),
            ) + rest,
        ),
    ensures
        ({
            let end = pos + define_text(
                style,
                0,
                name,
                decimal::ascii("_width"@),
                decimal::decimal(width as nat),
            ).len();
            &&& grammar::width_line(text, pos) == (
                end,
                Ok::<(Seq<u8>, Seq<u8>), XbmDecodeError>((name, decimal::decimal(width as nat))),
            )
            &&& follows(text, end, rest)
        }),
{
    reveal(grammar::width_line);
    reveal_strlit("_width");
    let part = XbmPart::Width;
    let suffix = decimal::ascii("_width"@);
    let digits = decimal::decimal(width as nat);
    let word = decimal::ascii("#define"@);
    let g0 = (style.gaps)(0);
    let g1 = (style.gaps)(1);
    let value = g1 + (digits + ((style.ends)(0) + (seq!['\n' as u8] + rest)));
    let symbol = name + suffix;
    assert(define_text(style, 0, name, suffix, digits) + rest =~= word + (g0 + (symbol + value)));
    lemma_fixed(text, pos, word, g0 + (symbol + value), part);
    assert(all_in(symbol, grammar::CharClass::Token)) by {
        assert forall|i: int| 0 <= i < symbol.len() implies grammar::in_class(
            grammar::CharClass::Token,
            #[trigger] symbol[i],
        ) by {
            if i < name.len() {
                assert(grammar::in_class(grammar::CharClass::Token, name[i]));
            }
        }
    }
    assert(grammar::in_class(grammar::CharClass::Token, symbol[0]));
    lemma_gap(text, pos + word.len(), g0, symbol + value, part);
    let p = pos + word.len() + g0.len();
    assert(grammar::in_class(grammar::CharClass::Blank, g1[0]));
    lemma_run(text, p, symbol, value, grammar::CharClass::Token);
    lemma_follows(text, p, symbol, value);
    assert(text.subrange(p, p + symbol.len()) =~= symbol);
    assert(symbol.skip(symbol.len() - 6) =~= suffix);
    assert(symbol.take(symbol.len() - 6) =~= name);
    lemma_line_value(text, p + symbol.len(), style, 0, width as int, rest, part);
}

/// The lines for the hotspot are read where they stand.
proof fn lemma_hotspot_lines(
    text: Seq<u8>,
    pos: int,
    style: Style,
    name: Seq<u8>,
    hotspot: Option<(i32, i32)>,
    rest: Seq<u8>,
)
    requires
        style.wf(),
        all_in(name, grammar::CharClass::Token),
        rest.len() > 0,
        rest[0] == 's' as u8,
        follows(text, pos, hotspot_text(style, name, hotspot) + rest),
    ensures
        ({
            let end = pos + hotspot_text(style, name, hotspot).len();
            &&& grammar::hotspot_lines(text, pos, name) == (
                end,
                Ok::<Option<(i32, i32)>, XbmDecodeError>(hotspot),
            )
            &&& follows(text, end, rest)
        }),
{
    reveal(grammar::hotspot_lines);
    reveal_strlit("_x_hot");
    reveal_strlit("_y_hot");
    reveal_strlit("#define");
    match hotspot {
        None => {
            lemma_follows(text, pos, Seq::empty(), rest);
        },
        Some((x, y)) => {
            let sx = decimal::ascii("_x_hot"@);
            let sy = decimal::ascii("_y_hot"@);
            let lx = define_text(style, 2, name, sx, decimal::signed_decimal(x as int));
            let ly = define_text(style, 3, name, sy, decimal::signed_decimal(y as int));
            assert(hotspot_text(style, name, hotspot) + rest =~= lx + (ly + rest));
            lemma_follows(text, pos, lx, ly + rest);
            assert(lx[0] == '#' as u8);
            lemma_define_line(
                text,
                pos,
                style,
                2,
                name,
                sx,
                x as int,
                ly + rest,
                XbmPart::HotspotX,
            );
            lemma_define_line(
                text,
                pos + lx.len(),
                style,
                3,
                name,
                sy,
                y as int,
                rest,
                XbmPart::HotspotY,
            );
            decimal::law_i32_round_trip(x);
            decimal::law_i32_round_trip(y);
        },
    }
}

/// The element type is read where it stands.
proof fn lemma_array_type(text: Seq<u8>, pos: int, style: Style, rest: Seq<u8>)
    requires
        style.wf(),
        follows(text, pos, type_text(style) + rest),
    ensures
        ({
            let end = pos + type_text(style).len();
            &&& grammar::array_type(text, pos) == (end, Ok::<(), XbmDecodeError>(()))
            &&& follows(text, end, rest)
        }),
{
    reveal_strlit("char");
    reveal_strlit("unsigned");
    let part = XbmPart::Array;
    let c = decimal::ascii("char"@);
    lemma_follows(text, pos, type_text(style), rest);
    if style.unsigned {
        let u = decimal::ascii("unsigned"@);
        let g = (style.gaps)(9);
        assert(type_text(style) + rest =~= u + (g + (c + rest)));
        assert(text[pos] == 'u' as u8);
        lemma_fixed(text, pos, u, g + (c + rest), part);
        lemma_gap(text, pos + u.len(), g, c + rest, part);
        lemma_fixed(text, pos + u.len() + g.len(), c, rest, part);
    } else {
        assert(text[pos] == 'c' as u8);
        lemma_fixed(text, pos, c, rest, part);
    }
}

/// The start of the array is read where it stands.
proof fn lemma_array_start(text: Seq<u8>, pos: int, style: Style, name: Seq<u8>, rest: Seq<u8>)
    requires
        style.wf(),
        all_in(name, grammar::CharClass::Token),
        follows(text, pos, array_text(style, name) + rest),
    ensures
        ({
            let end = pos + array_text(style, name).len();
            &&& grammar::array_start(text, pos, name) == (end, Ok::<(), XbmDecodeError>(()))
            &&& follows(text, end, rest)
        }),
{
    reveal(grammar::array_start);
    reveal_strlit("char");
    reveal_strlit("unsigned");
    reveal_strlit("_bits[]");
    reveal_strlit("=");
    reveal_strlit("{");
    let part = XbmPart::Array;
    let word = decimal::ascii("static"@);
    let ty = type_text(style);
    let bits = decimal::ascii("_bits[]"@);
    let eq = decimal::ascii("="@);
    let brace = decimal::ascii("{"@);
    let g8 = (style.gaps)(8);
    let g10 = (style.gaps)(10);
    let g11 = (style.gaps)(11);
    let g12 = (style.gaps)(12);
    let r12 = brace + rest;
    let r11 = eq + (g12 + r12);
    let r10 = name + (bits + (g11 + r11));
    let r8 = ty + (g10 + r10);
    assert(array_text(style, name) + rest =~= word + (g8 + r8));
    lemma_fixed(text, pos, word, g8 + r8, part);
    let p = pos + word.len();
    lemma_gap(text, p, g8, r8, part);
    let p = p + g8.len();
    lemma_array_type(text, p, style, g10 + r10);
    let p = p + ty.len();
    assert(!grammar::is_blank(r10[0])) by {
        if name.len() > 0 {
            assert(grammar::in_class(grammar::CharClass::Token, name[0]));
        }
    }
    lemma_gap(text, p, g10, r10, part);
    let p = p + g10.len();
    lemma_fixed(text, p, name, bits + (g11 + r11), part);
    let p = p + name.len();
    lemma_fixed(text, p, bits, g11 + r11, part);
    let p = p + bits.len();
    lemma_gap(text, p, g11, r11, part);
    let p = p + g11.len();
    lemma_fixed(text, p, eq, g12 + r12, part);
    let p = p + eq.len();
    lemma_gap(text, p, g12, r12, part);
    let p = p + g12.len();
    lemma_fixed(text, p, brace, rest, part);
}

/// Reading a header gives back the name and the properties that were written, whatever the
/// gaps between its words, and whatever follows it.
pub proof fn law_header_round_trip(
    style: Style,
    name: Seq<u8>,
    header: XbmHeaderData,
    rest: Seq<u8>,
)
    requires
        style.wf(),
        all_in(name, grammar::CharClass::Token),
        name.len() + 6 <= 256,
        header.width > 0,
        header.height > 0,
    ensures
        grammar::header(header_text(style, name, header) + rest, 0) == (
            header_text(style, name, header).len() as int,
            Ok::<(Seq<u8>, XbmHeaderData), XbmDecodeError>((name, header)),
        ),
{
    let text = header_text(style, name, header) + rest;
    reveal_strlit("static");
    reveal_strlit("_height");
    let height = decimal::ascii("_height"@);
    let w = decimal::decimal(header.width as nat);
    let h = decimal::decimal(header.height as nat);
    let l0 = define_text(style, 0, name, decimal::ascii("_width"@), w);
    let l1 = define_text(style, 1, name, height, h);
    let hot = hotspot_text(style, name, header.hotspot);
    let arr = array_text(style, name);
    assert(text =~= l0 + (l1 + (hot + (arr + rest))));
    assert(text.skip(0) =~= text);
    lemma_width_line(text, 0, style, name, header.width, l1 + (hot + (arr + rest)));
    decimal::law_u32_round_trip(header.width, w);
    let p = l0.len() as int;
    lemma_define_line(
        text,
        p,
        style,
        1,
        name,
        height,
        header.height as int,
        hot + (arr + rest),
        XbmPart::Height,
    );
    decimal::law_u32_round_trip(header.height, h);
    let p = p + l1.len();
    assert((arr + rest)[0] == 's' as u8);
    lemma_hotspot_lines(text, p, style, name, header.hotspot, arr + rest);
    let p = p + hot.len();
    lemma_array_start(text, p, style, name, rest);
}

/// Whether `c` is the hexadecimal digit for a number below sixteen, in either case.
pub open spec fn is_hex_digit(c: u8, v: int) -> bool {
    ||| c == "0123456789abcdef"@[v] as u8
    ||| c == "0123456789ABCDEF"@[v] as u8
}

/// Whether `s` is a way to write the byte `b` in hexadecimal.
pub open spec fn is_hex(s: Seq<u8>, b: u8) -> bool {
    &&& s.len() == 4
    &&& s[0] == '0' as u8
    &&& s[1] == 'x' as u8 || s[1] == 'X' as u8
    &&& is_hex_digit(s[2], b as int / 16)
    &&& is_hex_digit(s[3], b as int % 16)
}

/// The characters of `0123456789abcdef` and `0123456789ABCDEF` are the digits from zero to fifteen,
/// and there are no others.
pub proof fn law_hex_digits(c: u8, v: u8)
    ensures
        v < 16 ==> (grammar::hex_value(c) == Some(v) <==> is_hex_digit(c, v as int)),
        grammar::hex_value(c) is Some ==> grammar::hex_value(c)->0 < 16,
{
    reveal_strlit("0123456789abcdef");
    reveal_strlit("0123456789ABCDEF");
}

/// The two digits behind `0x` or `0X` make up a byte: sixteen times the first one, plus the second
/// one. Where something else stands there, there is an error, and nothing behind it has been read.
pub proof fn law_hex_bytes(text: Seq<u8>, pos: int, part: XbmPart, hi: u8, lo: u8)
    requires
        0 <= pos <= text.len(),
    ensures
        pos + 4 <= text.len() && text[pos] == '0' as u8 && (text[pos + 1] == 'x' as u8 || text[pos
            + 1] == 'X' as u8) && hi < 16 && lo < 16 && is_hex_digit(text[pos + 2], hi as int)
            && is_hex_digit(text[pos + 3], lo as int) ==> grammar::hex_byte(text, pos, part) == (
            pos + 4,
            Ok::<u8, XbmDecodeError>((16 * hi + lo) as u8),
        ),
        grammar::hex_byte(text, pos, part).1 is Ok ==> grammar::hex_byte(text, pos, part).0 == pos
            + 4 && pos + 4 <= text.len() && is_hex(
            text.subrange(pos, pos + 4),
            grammar::hex_byte(text, pos, part).1->Ok_0,
        ),
        grammar::hex_byte(text, pos, part).1 matches Err(e) ==> e == XbmDecodeError::Parse(
            part,
            grammar::location(text, grammar::hex_byte(text, pos, part).0),
        ),
        pos <= grammar::hex_byte(text, pos, part).0 <= pos + 4,
        grammar::hex_byte(text, pos, part).0 <= text.len(),
{
    if hi < 16 {
        law_hex_digits(text[pos + 2], hi);
    }
    if lo < 16 {
        law_hex_digits(text[pos + 3], lo);
    }
    let (p, r) = grammar::hex_byte(text, pos, part);
    if r is Ok {
        let h = grammar::hex_value(text[pos + 2])->0;
        let l = grammar::hex_value(text[pos + 3])->0;
        law_hex_digits(text[pos + 2], h);
        law_hex_digits(text[pos + 3], l);
        let s = text.subrange(pos, pos + 4);
        assert(s[0] == text[pos] && s[1] == text[pos + 1] && s[2] == text[pos + 2] && s[3]
            == text[pos + 3]);
        assert((h * 16 + l) / 16 == h && (h * 16 + l) % 16 == l);
    }
}

/// Element `k` of the array, with the comma before it.
pub open spec fn element_text(style: Style, hexes: Seq<Seq<u8>>, k: int) -> Seq<u8> {
    if k == 0 {
        (style.spaces)(0) + hexes[0]
    } else {
        (style.spaces)(2 * k) + (seq![',' as u8] + ((style.spaces)(2 * k + 1) + hexes[k]))
    }
}

/// The elements of the array from `k` on.
pub open spec fn data_text(style: Style, hexes: Seq<Seq<u8>>, k: int) -> Seq<u8>
    decreases hexes.len() - k,
{
    if 0 <= k < hexes.len() {
        element_text(style, hexes, k) + data_text(style, hexes, k + 1)
    } else {
        Seq::empty()
    }
}

/// What follows the elements of the array.
pub open spec fn trailer_text(style: Style) -> Seq<u8> {
    let end = seq!['}' as u8] + ((style.spaces)(-3) + (seq![';' as u8] + (style.spaces)(-4)));
    if style.last_comma {
        (style.spaces)(-1) + (seq![',' as u8] + ((style.spaces)(-2) + end))
    } else {
        (style.spaces)(-1) + end
    }
}

/// Spaces are skipped where they stand.
proof fn lemma_skip_space(text: Seq<u8>, pos: int, s: Seq<u8>, rest: Seq<u8>)
    requires
        follows(text, pos, s + rest),
        all_in(s, grammar::CharClass::Space),
        rest.len() > 0 ==> !grammar::is_space(rest[0]),
    ensures
        grammar::skip_space(text, pos) == pos + s.len(),
        follows(text, pos + s.len(), rest),
{
    lemma_run(text, pos, s, rest, grammar::CharClass::Space);
}

/// A byte is read where it stands.
proof fn lemma_hex_byte(text: Seq<u8>, pos: int, s: Seq<u8>, b: u8, rest: Seq<u8>, part: XbmPart)
    requires
        follows(text, pos, s + rest),
        is_hex(s, b),
    ensures
        grammar::hex_byte(text, pos, part) == (pos + 4, Ok::<u8, XbmDecodeError>(b)),
        follows(text, pos + 4, rest),
{
    lemma_follows(text, pos, s, rest);
    assert(text[pos + 1] == s[1]);
    assert(text[pos + 2] == s[2]);
    assert(text[pos + 3] == s[3]);
    law_hex_bytes(text, pos, part, (b / 16) as u8, (b % 16) as u8);
}

/// An element of the array is read where it stands.
proof fn lemma_element(
    text: Seq<u8>,
    pos: int,
    style: Style,
    hexes: Seq<Seq<u8>>,
    b: u8,
    k: int,
    more: Seq<u8>,
)
    requires
        style.wf(),
        0 <= k < hexes.len(),
        is_hex(hexes[k], b),
        follows(text, pos, element_text(style, hexes, k) + more),
    ensures
        ({
            let end = pos + element_text(style, hexes, k).len();
            &&& grammar::next_element(text, pos, k as nat, hexes.len()) == (
                end,
                Ok::<Option<u8>, XbmDecodeError>(Some(b)),
            )
            &&& follows(text, end, more)
        }),
{
    reveal(grammar::next_element);
    reveal_strlit(",");
    let part = XbmPart::Data;
    let hex = hexes[k];
    let comma = decimal::ascii(","@);
    assert(comma =~= seq![',' as u8]);
    let p = if k == 0 {
        let s = (style.spaces)(0);
        assert(element_text(style, hexes, k) + more =~= s + (hex + more));
        lemma_skip_space(text, pos, s, hex + more);
        pos + s.len()
    } else {
        let s0 = (style.spaces)(2 * k);
        let s1 = (style.spaces)(2 * k + 1);
        assert(element_text(style, hexes, k) + more =~= s0 + (comma + (s1 + (hex + more))));
        lemma_skip_space(text, pos, s0, comma + (s1 + (hex + more)));
        lemma_fixed(text, pos + s0.len(), comma, s1 + (hex + more), part);
        lemma_skip_space(text, pos + s0.len() + 1, s1, hex + more);
        pos + s0.len() + 1 + s1.len()
    };
    lemma_hex_byte(text, p, hex, b, more, part);
}

/// The elements of the array are read where they stand.
proof fn lemma_elements<E>(
    text: Seq<u8>,
    pos: int,
    style: Style,
    hexes: Seq<Seq<u8>>,
    bytes: Seq<u8>,
    k: int,
    fault: Option<E>,
)
    requires
        style.wf(),
        0 <= k <= bytes.len(),
        hexes.len() == bytes.len(),
        forall|i: int| 0 <= i < bytes.len() ==> is_hex(#[trigger] hexes[i], bytes[i]),
        follows(text, pos, data_text(style, hexes, k) + trailer_text(style)),
    ensures
        ({
            let end = pos + data_text(style, hexes, k).len();
            &&& grammar::elements(
                text,
                pos,
                k as nat,
                (bytes.len() - k) as nat,
                bytes.len(),
                fault,
            ) == (bytes.skip(k), end, None::<CodecError<E>>)
            &&& follows(text, end, trailer_text(style))
        }),
    decreases bytes.len() - k,
{
    if k < bytes.len() {
        let this = element_text(style, hexes, k);
        let more = data_text(style, hexes, k + 1) + trailer_text(style);
        assert(is_hex(hexes[k], bytes[k]));
        assert(data_text(style, hexes, k) + trailer_text(style) =~= this + more);
        lemma_element(text, pos, style, hexes, bytes[k], k, more);
        assert(more.len() > 0);
        assert(pos + this.len() < text.len());
        lemma_elements(text, pos + this.len(), style, hexes, bytes, k + 1, fault);
        assert(seq![bytes[k]] + bytes.skip(k + 1) =~= bytes.skip(k));
    } else {
        assert(bytes.skip(k) =~= Seq::empty());
        assert(data_text(style, hexes, k) + trailer_text(style) =~= trailer_text(style));
    }
}

/// What follows the array is read to the end of the text.
proof fn lemma_trailer(text: Seq<u8>, pos: int, style: Style)
    requires
        style.wf(),
        follows(text, pos, trailer_text(style)),
    ensures
        grammar::trailer(text, pos) == (text.len() as int, Ok::<(), XbmDecodeError>(())),
{
    reveal_strlit("}");
    reveal_strlit(";");
    let part = XbmPart::ArrayEnd;
    let comma = seq![',' as u8];
    let brace = decimal::ascii("}"@);
    let semi = decimal::ascii(";"@);
    assert(brace =~= seq!['}' as u8]);
    assert(semi =~= seq![';' as u8]);
    let s1 = (style.spaces)(-1);
    let s2 = (style.spaces)(-2);
    let s3 = (style.spaces)(-3);
    let s4 = (style.spaces)(-4);
    let end = brace + (s3 + (semi + s4));
    let p = if style.last_comma {
        lemma_skip_space(text, pos, s1, comma + (s2 + end));
        lemma_follows(text, pos + s1.len(), comma, s2 + end);
        lemma_skip_space(text, pos + s1.len() + 1, s2, end);
        pos + s1.len() + 1 + s2.len()
    } else {
        lemma_skip_space(text, pos, s1, end);
        pos + s1.len()
    };
    lemma_fixed(text, p, brace, s3 + (semi + s4), part);
    lemma_skip_space(text, p + 1, s3, semi + s4);
    lemma_fixed(text, p + 1 + s3.len(), semi, s4, part);
    assert(s4 + Seq::<u8>::empty() =~= s4);
    lemma_skip_space(text, p + 1 + s3.len() + 1, s4, Seq::empty());
}

/// The text of a whole file.
pub open spec fn file_text(
    style: Style,
    name: Seq<u8>,
    header: XbmHeaderData,
    hexes: Seq<Seq<u8>>,
) -> Seq<u8> {
    header_text(style, name, header) + (data_text(style, hexes, 0) + trailer_text(style))
}

/// Reading a file gives back the name, the properties and the bytes that were written,
/// whatever the gaps and spaces in it. The whole file is read, so that an error of the reader
/// at its end comes to light.
pub proof fn law_file_round_trip<E>(
    style: Style,
    name: Seq<u8>,
    header: XbmHeaderData,
    hexes: Seq<Seq<u8>>,
    bytes: Seq<u8>,
    fault: Option<E>,
    buf: Seq<u8>,
)
    requires
        style.wf(),
        all_in(name, grammar::CharClass::Token),
        name.len() + 6 <= 256,
        header.width > 0,
        header.height > 0,
        bytes.len() == header.data_size(),
        hexes.len() == bytes.len(),
        forall|i: int| 0 <= i < bytes.len() ==> is_hex(#[trigger] hexes[i], bytes[i]),
        buf.len() == header.width * header.height,
    ensures
        ({
            let text = file_text(style, name, header, hexes);
            let end = header_text(style, name, header).len() as int;
            &&& grammar::header(text, 0) == (
                end,
                Ok::<(Seq<u8>, XbmHeaderData), XbmDecodeError>((name, header)),
            )
            &&& grammar::image_read(text, end, header, fault, buf) == (
                grammar::unpacked(bytes, header.width as nat, buf),
                match fault {
                    None => Ok(()),
                    Some(f) => Err(CodecError::IoError(IoFailure::Reader(f))),
                },
            )
        }),
{
    let text = file_text(style, name, header, hexes);
    let head = header_text(style, name, header);
    let data = data_text(style, hexes, 0) + trailer_text(style);
    let pos = head.len() as int;
    law_header_round_trip(style, name, header, data);
    assert(text.skip(pos) =~= data);
    lemma_image(text, pos, style, header, hexes, bytes, fault, buf);
}

/// The array and what follows it are read where they stand.
proof fn lemma_image<E>(
    text: Seq<u8>,
    pos: int,
    style: Style,
    header: XbmHeaderData,
    hexes: Seq<Seq<u8>>,
    bytes: Seq<u8>,
    fault: Option<E>,
    buf: Seq<u8>,
)
    requires
        style.wf(),
        header.width > 0,
        bytes.len() == header.data_size(),
        hexes.len() == bytes.len(),
        forall|i: int| 0 <= i < bytes.len() ==> is_hex(#[trigger] hexes[i], bytes[i]),
        buf.len() == header.width * header.height,
        follows(text, pos, data_text(style, hexes, 0) + trailer_text(style)),
    ensures
        grammar::image_read(text, pos, header, fault, buf) == (
            grammar::unpacked(bytes, header.width as nat, buf),
            match fault {
                None => Ok(()),
                Some(f) => Err(CodecError::IoError(IoFailure::Reader(f))),
            },
        ),
{
    lemma_elements(text, pos, style, hexes, bytes, 0, fault);
    assert(bytes.skip(0) =~= bytes);
    let w = header.width as nat;
    let n = (buf.len() / w) * grammar::row_bytes(w);
    assert(buf.len() / w == header.height) by (nonlinear_arith)
        requires
            buf.len() == w * header.height,
            w > 0,
    ;
    assert(n == header.data_size()) by (nonlinear_arith)
        requires
            n == (header.height as nat) * grammar::row_bytes(w),
            header.data_size() == grammar::row_bytes(w) * header.height as nat,
    ;
    let end = pos + data_text(style, hexes, 0).len();
    lemma_trailer(text, end, style);
    assert(grammar::next_element(text, end, n, n) == (
        text.len() as int,
        Ok::<Option<u8>, XbmDecodeError>(None),
    )) by {
        reveal(grammar::next_element);
    }
}

/// Runs of characters end within the text.
proof fn lemma_run_bound(text: Seq<u8>, pos: int, c: grammar::CharClass)
    requires
        0 <= pos <= text.len(),
    ensures
        pos + grammar::run_len(text, pos, c) <= text.len(),
    decreases text.len() - pos,
{
    if pos < text.len() {
        lemma_run_bound(text, pos + 1, c);
    }
}

/// Reading what follows the array stays within the text, and succeeds at its end only.
proof fn lemma_trailer_bound(text: Seq<u8>, pos: int)
    requires
        0 <= pos <= text.len(),
    ensures
        grammar::trailer(text, pos).1 is Ok ==> grammar::trailer(text, pos).0 == text.len(),
{
    reveal_with_fuel(grammar::matched, 2);
    reveal_strlit("}");
    reveal_strlit(";");
    lemma_run_bound(text, pos, grammar::CharClass::Space);
    let p = grammar::skip_space(text, pos);
    if p < text.len() {
        lemma_run_bound(text, p + 1, grammar::CharClass::Space);
    }
    let q = grammar::last_comma(text, p).0;
    if q < text.len() {
        lemma_run_bound(text, q + 1, grammar::CharClass::Space);
        let t = grammar::skip_space(text, q + 1);
        if t < text.len() {
            lemma_run_bound(text, t + 1, grammar::CharClass::Space);
        }
    }
}

/// Reading an element stays within the text.
proof fn lemma_element_bound(text: Seq<u8>, pos: int, count: nat)
    requires
        0 <= pos <= text.len(),
    ensures
        0 <= grammar::element(text, pos, count).0 <= text.len(),
{
    reveal_with_fuel(grammar::matched, 2);
    reveal_strlit(",");
    lemma_run_bound(text, pos, grammar::CharClass::Space);
    let p = grammar::skip_space(text, pos);
    if p < text.len() {
        lemma_run_bound(text, p + 1, grammar::CharClass::Space);
    }
}

/// Reading elements stays within the text.
proof fn lemma_elements_bound<E>(
    text: Seq<u8>,
    pos: int,
    count: nat,
    n: nat,
    size: nat,
    fault: Option<E>,
)
    requires
        0 <= pos <= text.len(),
    ensures
        ({
            let (_, end, err) = grammar::elements(text, pos, count, n, size, fault);
            err is None ==> 0 <= end <= text.len()
        }),
    decreases n,
{
    if n > 0 {
        reveal(grammar::next_element);
        let next = grammar::next_element(text, pos, count, size);
        lemma_element_bound(text, pos, count);
        if grammar::outcome(text, next, fault) matches Ok(Some(_)) {
            lemma_elements_bound(text, next.0, count + 1, (n - 1) as nat, size, fault);
        }
    }
}

/// Where a reader is after so many bytes have been asked for.
proof fn lemma_bytes_taken<E>(
    text: Seq<u8>,
    readers: Seq<TextReader<E>>,
    results: Seq<Option<u8>>,
    k: int,
)
    requires
        readers.len() == results.len() + 1,
        readers[0].wf(),
        readers[0].text() == text,
        readers[0].pos() == 0,
        forall|i: int|
            0 <= i < results.len() ==> TextReader::taken(
                readers[i],
                #[trigger] results[i],
                readers[i + 1],
            ),
        0 <= k <= results.len(),
    ensures
        readers[k].wf(),
        readers[k].text() == text,
        readers[k].pos() == (if k <= text.len() {
            k
        } else {
            text.len() as int
        }),
    decreases k,
{
    if k > 0 {
        lemma_bytes_taken(text, readers, results, k - 1);
        assert(TextReader::taken(readers[k - 1], results[k - 1], readers[k - 1 + 1]));
    }
}

/// A reader yields the bytes of its text one after the other, and shows each of them before. It then
/// is behind that byte. Once there are no more, it yields none, and does not change: its location
/// stays the same, and the source is not asked again.
pub proof fn law_bytes_come_in_turn<E>(
    text: Seq<u8>,
    readers: Seq<TextReader<E>>,
    results: Seq<Option<u8>>,
    k: int,
)
    requires
        readers.len() == results.len() + 1,
        readers[0].wf(),
        readers[0].text() == text,
        readers[0].pos() == 0,
        forall|i: int|
            0 <= i < results.len() ==> TextReader::taken(
                readers[i],
                #[trigger] results[i],
                readers[i + 1],
            ),
        0 <= k < results.len(),
    ensures
        results[k] == readers[k].ahead(),
        k < text.len() ==> {
            &&& results[k] == Some(text[k])
            &&& readers[k + 1].location == grammar::location(text, k + 1)
        },
        k >= text.len() ==> {
            &&& results[k] is None
            &&& readers[k + 1] == readers[k]
        },
{
    lemma_bytes_taken(text, readers, results, k);
    assert(TextReader::taken(readers[k], results[k], readers[k + 1]));
}

/// An error of the reader never goes unnoticed: reading an image only succeeds if there was
/// none.
pub proof fn law_fault_is_reported<E>(
    text: Seq<u8>,
    pos: int,
    header: XbmHeaderData,
    fault: Option<E>,
    buf: Seq<u8>,
)
    requires
        0 <= pos <= text.len(),
    ensures
        grammar::image_read(text, pos, header, fault, buf).1 is Ok ==> fault is None,
{
    reveal(grammar::next_element);
    let width = header.width as nat;
    let n = (buf.len() / width) * grammar::row_bytes(width);
    lemma_elements_bound(text, pos, 0, n, header.data_size(), fault);
    let (_, end, err) = grammar::elements(text, pos, 0, n, header.data_size(), fault);
    if err is None {
        lemma_trailer_bound(text, end);
    }
}

/// Whether bit `i` of byte `j` is to be set, where `pixels` makes up rows of `width` pixels.
pub open spec fn is_black(pixels: Seq<u8>, width: nat, j: int, i: int) -> bool {
    let rb = grammar::row_bytes(width) as int;
    let col = (j % rb) * 8 + i;
    col < width && pixels[(j / rb) * width + col] == 0
}

/// A byte of which these bits are set, the least significant one first.
pub open spec fn byte_of(
    b0: bool,
    b1: bool,
    b2: bool,
    b3: bool,
    b4: bool,
    b5: bool,
    b6: bool,
    b7: bool,
) -> u8 {
    (if b0 { 1u8 } else { 0u8 }) | (if b1 { 2u8 } else { 0u8 }) | (if b2 { 4u8 } else { 0u8 }) | (
    if b3 { 8u8 } else { 0u8 }) | (if b4 { 16u8 } else { 0u8 }) | (if b5 { 32u8 } else { 0u8 })
        | (if b6 { 64u8 } else { 0u8 }) | (if b7 { 128u8 } else { 0u8 })
}

/// The bytes in which `rows` rows of `width` pixels are stored.
pub open spec fn packed(pixels: Seq<u8>, width: nat, rows: nat) -> Seq<u8> {
    Seq::new(
        grammar::row_bytes(width) * rows,
        |j: int|
            byte_of(
                is_black(pixels, width, j, 0),
                is_black(pixels, width, j, 1),
                is_black(pixels, width, j, 2),
                is_black(pixels, width, j, 3),
                is_black(pixels, width, j, 4),
                is_black(pixels, width, j, 5),
                is_black(pixels, width, j, 6),
                is_black(pixels, width, j, 7),
            ),
    )
}

/// The bits of a byte are those that it is made of.
proof fn lemma_byte_of(
    b0: bool,
    b1: bool,
    b2: bool,
    b3: bool,
    b4: bool,
    b5: bool,
    b6: bool,
    b7: bool,
)
    by (bit_vector)
    ensures
        (byte_of(b0, b1, b2, b3, b4, b5, b6, b7) & (1u8 << 0u8) != 0) == b0,
        (byte_of(b0, b1, b2, b3, b4, b5, b6, b7) & (1u8 << 1u8) != 0) == b1,
        (byte_of(b0, b1, b2, b3, b4, b5, b6, b7) & (1u8 << 2u8) != 0) == b2,
        (byte_of(b0, b1, b2, b3, b4, b5, b6, b7) & (1u8 << 3u8) != 0) == b3,
        (byte_of(b0, b1, b2, b3, b4, b5, b6, b7) & (1u8 << 4u8) != 0) == b4,
        (byte_of(b0, b1, b2, b3, b4, b5, b6, b7) & (1u8 << 5u8) != 0) == b5,
        (byte_of(b0, b1, b2, b3, b4, b5, b6, b7) & (1u8 << 6u8) != 0) == b6,
        (byte_of(b0, b1, b2, b3, b4, b5, b6, b7) & (1u8 << 7u8) != 0) == b7,
{
}

/// Storing black and white pixels and reading them again gives back the pixels, whatever the
/// buffer held before.
pub proof fn law_pixels_round_trip(pixels: Seq<u8>, width: nat, rows: nat, buf: Seq<u8>)
    requires
        width > 0,
        pixels.len() == width * rows,
        buf.len() == pixels.len(),
        forall|p: int| 0 <= p < pixels.len() ==> #[trigger] pixels[p] == 0 || pixels[p] == 0xff,
    ensures
        grammar::unpacked(packed(pixels, width, rows), width, buf) == pixels,
{
    let bytes = packed(pixels, width, rows);
    let out = grammar::unpacked(bytes, width, buf);
    let w = width as int;
    let rb = grammar::row_bytes(width) as int;
    assert((buf.len() / width) * width == buf.len()) by (nonlinear_arith)
        requires
            buf.len() == width * rows,
            width > 0,
    ;
    assert forall|p: int| 0 <= p < pixels.len() implies #[trigger] out[p] == pixels[p] by {
        let r = p / w;
        let c = p % w;
        let j = grammar::slot(p, width);
        assert(p == r * w + c && 0 <= c < w && 0 <= r < rows) by (nonlinear_arith)
            requires
                r == p / w,
                c == p % w,
                w > 0,
                0 <= p < w * rows,
        ;
        assert(0 <= c / 8 < rb);
        assert(j < rb * rows && 0 <= j) by (nonlinear_arith)
            requires
                j == r * rb + c / 8,
                0 <= c / 8 < rb,
                0 <= r,
                r + 1 <= rows,
        ;
        assert(j / rb == r && j % rb == c / 8) by {
            vstd::arithmetic::div_mod::lemma_fundamental_div_mod_converse(j, rb, r, c / 8);
        }
        let i = c % 8;
        assert((j % rb) * 8 + i == c);
        assert(is_black(pixels, width, j, i) == (pixels[p] == 0));
        lemma_byte_of(
            is_black(pixels, width, j, 0),
            is_black(pixels, width, j, 1),
            is_black(pixels, width, j, 2),
            is_black(pixels, width, j, 3),
            is_black(pixels, width, j, 4),
            is_black(pixels, width, j, 5),
            is_black(pixels, width, j, 6),
            is_black(pixels, width, j, 7),
        );
    }
    assert(out =~= pixels);
}

/// Gaps are made of spaces and tabs. Where more than gaps may stand, newlines may too. Everything else
/// belongs to a word.
pub proof fn law_characters(b: u8)
    ensures
        grammar::in_class(grammar::CharClass::Blank, b) <==> b == 32 || b == 9,
        grammar::in_class(grammar::CharClass::Space, b) <==> b == 32 || b == 9 || b == 10,
        grammar::in_class(grammar::CharClass::Token, b) <==> b != 32 && b != 9 && b != 10,
{
}

/// The line of a location is one more than the number of newlines before it, and between the newline
/// before it and the location there are as many characters as the column says.
pub proof fn law_locations(text: Seq<u8>, n: int)
    requires
        0 <= n <= text.len() <= isize::MAX,
    ensures
        ({
            let l = grammar::location(text, n);
            &&& l.byte == n
            &&& l.line == 1 + text.take(n).filter(|b: u8| b == 10).len()
            &&& l.column <= n
            &&& l.column < n ==> text[n - l.column - 1] == 10
            &&& forall|i: int| n - l.column <= i < n ==> #[trigger] text[i] != 10
        }),
    decreases n,
{
    let newline = |b: u8| b == 10;
    reveal(Seq::filter);
    if n == 0 {
        assert(text.take(0).filter(newline).len() == 0);
    } else {
        law_locations(text, n - 1);
        assert(text.take(n).drop_last() =~= text.take(n - 1));
        assert(text.take(n).last() == text[n - 1]);
        lemma_location_fits(text, n);
        lemma_location_fits(text, n - 1);
    }
}

/// Lines and columns are not more than there are characters.
proof fn lemma_location_fits(text: Seq<u8>, n: int)
    requires
        0 <= n <= text.len(),
    ensures
        1 <= grammar::line_at(text, n) <= n + 1,
        grammar::column_at(text, n) <= n,
    decreases n,
{
    if n > 0 {
        lemma_location_fits(text, n - 1);
    }
}

/// A row takes as many bytes as are needed for one bit for each pixel, and an image as many as its
/// rows do.
pub proof fn law_data_size(header: XbmHeaderData)
    ensures
        ({
            let row = grammar::row_bytes(header.width as nat);
            &&& 8 * row >= header.width
            &&& 8 * row < header.width + 8
            &&& header.data_size() == row * header.height
        }),
{
}

/// Column `x` of row `y` is black if bit `x % 8` is set of byte `x / 8` of that row, counting from the
/// least significant one; else it is white.
pub proof fn law_pixels_are_bits(bytes: Seq<u8>, width: nat, rows: nat, buf: Seq<u8>, x: int, y: int)
    requires
        0 <= x < width,
        0 <= y < rows,
        buf.len() == width * rows,
        bytes.len() == ((width + 7) / 8) * rows,
    ensures
        grammar::unpacked(bytes, width, buf).len() == buf.len(),
        grammar::unpacked(bytes, width, buf)[y * width + x] == (if (bytes[y * ((width + 7) / 8) + x
            / 8] >> ((x % 8) as u8)) & 1 == 1 {
            0u8
        } else {
            255u8
        }),
{
    let w = width as int;
    let rb = (w + 7) / 8;
    let p = y * w + x;
    vstd::arithmetic::div_mod::lemma_fundamental_div_mod_converse(p, w, y, x);
    assert(0 <= p < w * rows) by (nonlinear_arith)
        requires
            p == y * w + x,
            0 <= x < w,
            0 <= y,
            y + 1 <= rows,
    ;
    assert((buf.len() / width) * width == buf.len()) by (nonlinear_arith)
        requires
            buf.len() == width * rows,
            width > 0,
    ;
    let j = y * rb + x / 8;
    assert(0 <= j < rb * rows) by (nonlinear_arith)
        requires
            j == y * rb + x / 8,
            0 <= x / 8 < rb,
            0 <= y,
            y + 1 <= rows,
    ;
    assert(grammar::slot(p, width) == j);
    let b = bytes[j];
    let i = (x % 8) as u8;
    assert((b & (1u8 << i) == 0) == ((b >> i) & 1 != 1)) by (bit_vector)
        requires
            i < 8,
    ;
}

/// A file that was written is read as an image of the size that was written, in shades of grey, with
/// the hotspot that was written, and with the pixels that its bytes stand for. An error of the reader
/// behind the text is reported when the image is read, which goes to the end of the text.
pub proof fn law_image_of_a_file<E>(
    style: Style,
    name: Seq<u8>,
    header: XbmHeaderData,
    hexes: Seq<Seq<u8>>,
    bytes: Seq<u8>,
    source: ByteSource<E>,
    after: XbmDecoder<E>,
    layout: Result<ImageLayout, CodecError<E>>,
    buf0: Seq<u8>,
    buf1: Seq<u8>,
    r: Result<(), CodecError<E>>,
    x: int,
    y: int,
)
    requires
        style.wf(),
        all_in(name, grammar::CharClass::Token),
        name.len() + 6 <= 256,
        header.width > 0,
        header.height > 0,
        bytes.len() == ((header.width + 7) / 8) * header.height,
        hexes.len() == bytes.len(),
        forall|i: int| 0 <= i < bytes.len() ==> is_hex(#[trigger] hexes[i], bytes[i]),
        source.rest() == file_text(style, name, header, hexes),
        XbmDecoder::peeked(XbmDecoder { state: XbmDecoderState::Init(source) }, after, layout),
        XbmDecoder::taken(XbmDecoder { state: XbmDecoderState::Init(source) }, buf0, buf1, r),
        buf0.len() == header.width * header.height,
        0 <= x < header.width,
        0 <= y < header.height,
    ensures
        layout matches Ok(l) && l.width == header.width && l.height == header.height
            && l.color.channels() == 1 && !l.color.is_deep(),
        after.state matches XbmDecoderState::Header(base) && base.header.hotspot == header.hotspot,
        r == (match source.fault {
            None => Ok::<(), CodecError<E>>(()),
            Some(f) => Err(CodecError::IoError(IoFailure::Reader(f))),
        }),
        buf1.len() == buf0.len(),
        buf1[y * header.width + x] == (if (bytes[y * ((header.width + 7) / 8) + x / 8] >> ((x
            % 8) as u8)) & 1 == 1 {
            0u8
        } else {
            255u8
        }),
{
    law_data_size(header);
    law_file_round_trip(style, name, header, hexes, bytes, source.fault, buf0);
    law_pixels_are_bits(bytes, header.width as nat, header.height as nat, buf0, x, y);
}

/// Asking for the layout again gives the same, and changes nothing. Where the header was refused, or the
/// image has been read, there is no more.
pub proof fn law_peeking_again<E>(
    before: XbmDecoder<E>,
    between: XbmDecoder<E>,
    after: XbmDecoder<E>,
    r1: Result<ImageLayout, CodecError<E>>,
    r2: Result<ImageLayout, CodecError<E>>,
)
    requires
        XbmDecoder::peeked(before, between, r1),
        XbmDecoder::peeked(between, after, r2),
    ensures
        after == between,
        r1 is Ok ==> r2 == r1,
        r1 is Err ==> r2 == Err::<ImageLayout, CodecError<E>>(
            CodecError::Parameter(ParameterErrorKind::NoMoreData),
        ),
{
}

/// A header that states a width or a height of zero is refused.
pub proof fn law_empty_images_are_refused(
    style: Style,
    name: Seq<u8>,
    header: XbmHeaderData,
    rest: Seq<u8>,
)
    requires
        style.wf(),
        all_in(name, grammar::CharClass::Token),
        name.len() + 6 <= 256,
    ensures
        ({
            let parsed = grammar::header(header_text(style, name, header) + rest, 0).1;
            &&& header.width == 0 ==> parsed == Err::<(Seq<u8>, XbmHeaderData), XbmDecodeError>(
                XbmDecodeError::ZeroWidth,
            )
            &&& header.width > 0 && header.height == 0 ==> parsed == Err::<
                (Seq<u8>, XbmHeaderData),
                XbmDecodeError,
            >(XbmDecodeError::ZeroHeight)
        }),
{
    let text = header_text(style, name, header) + rest;
    reveal_strlit("_height");
    let height = decimal::ascii("_height"@);
    let w = decimal::decimal(header.width as nat);
    let h = decimal::decimal(header.height as nat);
    let l0 = define_text(style, 0, name, decimal::ascii("_width"@), w);
    let l1 = define_text(style, 1, name, height, h);
    let more = hotspot_text(style, name, header.hotspot) + array_text(style, name) + rest;
    assert(text =~= l0 + (l1 + more));
    assert(text.skip(0) =~= text);
    lemma_width_line(text, 0, style, name, header.width, l1 + more);
    decimal::law_u32_round_trip(header.width, w);
    if header.width > 0 {
        lemma_define_line(
            text,
            l0.len() as int,
            style,
            1,
            name,
            height,
            header.height as int,
            more,
            XbmPart::Height,
        );
        decimal::law_u32_round_trip(header.height, h);
    }
}

/// Elements are only read as long as there are some.
proof fn lemma_elements_count<E>(
    text: Seq<u8>,
    pos: int,
    count: nat,
    n: nat,
    size: nat,
    fault: Option<E>,
)
    requires
        grammar::elements(text, pos, count, n, size, fault).2 is None,
        n > 0,
    ensures
        count + n <= size,
    decreases n,
{
    reveal(grammar::next_element);
    let next = grammar::next_element(text, pos, count, size);
    if n > 1 {
        lemma_elements_count(text, next.0, count + 1, (n - 1) as nat, size, fault);
    }
}

/// What ends a text: a semicolon, with nothing but spaces behind it.
proof fn lemma_trailer_end(text: Seq<u8>, pos: int)
    requires
        0 <= pos <= text.len(),
        grammar::trailer(text, pos).1 is Ok,
    ensures
        exists|p: int|
            pos < p < text.len() && text[p] == 59 && forall|i: int|
                p < i < text.len() ==> #[trigger] grammar::is_space(text[i]),
{
    reveal_with_fuel(grammar::matched, 2);
    reveal_strlit("}");
    reveal_strlit(";");
    lemma_run_bound(text, pos, grammar::CharClass::Space);
    let p = grammar::skip_space(text, pos);
    lemma_run_bound(text, p + 1, grammar::CharClass::Space);
    let q = grammar::last_comma(text, p).0;
    lemma_run_bound(text, q + 1, grammar::CharClass::Space);
    let t = grammar::skip_space(text, q + 1);
    lemma_run_bound(text, t + 1, grammar::CharClass::Space);
    lemma_run_class(text, t + 1, grammar::CharClass::Space);
    assert(text[t] == 59);
    assert forall|i: int| t < i < text.len() implies #[trigger] grammar::is_space(text[i]) by {
        assert(grammar::in_class(grammar::CharClass::Space, text[i]));
    }
}

/// The characters that are counted are of the class.
proof fn lemma_run_class(text: Seq<u8>, pos: int, c: grammar::CharClass)
    requires
        0 <= pos,
    ensures
        forall|i: int|
            pos <= i < pos + grammar::run_len(text, pos, c) ==> #[trigger] grammar::in_class(
                c,
                text[i],
            ),
    decreases text.len() - pos,
{
    if pos < text.len() && grammar::in_class(c, text[pos]) {
        lemma_run_class(text, pos + 1, c);
    }
}

/// Reading an image only succeeds where the buffer has as many rows as the image, and where the text
/// ends with a semicolon, behind which there are only spaces, tabs and newlines.
pub proof fn law_only_whole_images_are_read<E>(
    text: Seq<u8>,
    pos: int,
    header: XbmHeaderData,
    fault: Option<E>,
    buf: Seq<u8>,
)
    requires
        0 <= pos <= text.len(),
        header.width > 0,
        grammar::image_read(text, pos, header, fault, buf).1 is Ok,
    ensures
        buf.len() / (header.width as nat) == header.height,
        exists|p: int|
            pos < p < text.len() && text[p] == 59 && forall|i: int|
                p < i < text.len() ==> #[trigger] text[i] == 32 || text[i] == 9 || text[i] == 10,
{
    reveal(grammar::next_element);
    let width = header.width as nat;
    let rb = grammar::row_bytes(width) as int;
    let rows = (buf.len() / width) as int;
    let n = ((buf.len() / width) * grammar::row_bytes(width)) as nat;
    let size = header.data_size();
    lemma_elements_bound(text, pos, 0, n, size, fault);
    if n > 0 {
        lemma_elements_count(text, pos, 0, n, size, fault);
    }
    assert(n == size);
    assert(rows == header.height) by (nonlinear_arith)
        requires
            rows * rb == rb * header.height,
            rb > 0,
    ;
    let end = grammar::elements(text, pos, 0, n, size, fault).1;
    lemma_elements_forward(text, pos, 0, n, size, fault);
    lemma_trailer_end(text, end);
    let p = choose|p: int|
        end < p < text.len() && text[p] == 59 && forall|i: int|
            p < i < text.len() ==> #[trigger] grammar::is_space(text[i]);
    assert forall|i: int| p < i < text.len() implies #[trigger] text[i] == 32 || text[i] == 9
        || text[i] == 10 by {
        assert(grammar::is_space(text[i]));
    }
}

/// Reading elements goes forward.
proof fn lemma_elements_forward<E>(
    text: Seq<u8>,
    pos: int,
    count: nat,
    n: nat,
    size: nat,
    fault: Option<E>,
)
    requires
        0 <= pos <= text.len(),
        grammar::elements(text, pos, count, n, size, fault).2 is None,
    ensures
        pos <= grammar::elements(text, pos, count, n, size, fault).1,
    decreases n,
{
    if n > 0 {
        reveal(grammar::next_element);
        reveal_with_fuel(grammar::matched, 2);
        reveal_strlit(",");
        let next = grammar::next_element(text, pos, count, size);
        lemma_element_bound(text, pos, count);
        lemma_elements_forward(text, next.0, count + 1, (n - 1) as nat, size, fault);
    }
}

/// Whether `s` consists of spaces and tabs.
pub open spec fn is_gap(s: Seq<u8>) -> bool {
    forall|i: int| 0 <= i < s.len() ==> #[trigger] s[i] == 32 || s[i] == 9
}

/// Whether `s` consists of spaces, tabs and newlines.
pub open spec fn is_white(s: Seq<u8>) -> bool {
    forall|i: int| 0 <= i < s.len() ==> #[trigger] s[i] == 32 || s[i] == 9 || s[i] == 10
}

/// Whether `s` is the line `#define <symbol> <digits>`, with these gaps in it.
pub open spec fn define_parts(
    s: Seq<u8>,
    symbol: Seq<u8>,
    digits: Seq<u8>,
    g1: Seq<u8>,
    g2: Seq<u8>,
    g3: Seq<u8>,
) -> bool {
    &&& s == decimal::ascii("#define"@) + g1 + symbol + g2 + digits + g3 + seq![10u8]
    &&& g1.len() > 0 && is_gap(g1)
    &&& g2.len() > 0 && is_gap(g2)
    &&& is_gap(g3)
}

/// Whether `s` is the line `#define <symbol> <digits>`.
pub open spec fn is_define(s: Seq<u8>, symbol: Seq<u8>, digits: Seq<u8>) -> bool {
    exists|g1: Seq<u8>, g2: Seq<u8>, g3: Seq<u8>| #[trigger]
        define_parts(s, symbol, digits, g1, g2, g3)
}

/// Whether a character of `s` stands in the text.
spec fn stands(text: Seq<u8>, pos: int, s: Seq<u8>, j: int) -> bool {
    pos + j < text.len() && text[pos + j] == s[j]
}

/// What has been matched stands there.
proof fn lemma_matched_stands(text: Seq<u8>, pos: int, s: Seq<u8>, i: int)
    requires
        0 <= pos,
        0 <= i <= s.len(),
    ensures
        i <= grammar::matched(text, pos, s, i) <= s.len(),
        forall|j: int|
            i <= j < grammar::matched(text, pos, s, i) ==> #[trigger] stands(text, pos, s, j),
    decreases s.len() - i,
{
    if i < s.len() && pos + i < text.len() && text[pos + i] == s[i] {
        lemma_matched_stands(text, pos, s, i + 1);
        assert(stands(text, pos, s, i));
    }
}

/// What has been read as a fixed text is that text.
proof fn lemma_fixed_read(text: Seq<u8>, pos: int, s: Seq<u8>, part: XbmPart)
    requires
        0 <= pos <= text.len(),
        grammar::fixed(text, pos, s, part).1 is Ok,
    ensures
        grammar::fixed(text, pos, s, part).0 == pos + s.len(),
        pos + s.len() <= text.len(),
        text.subrange(pos, pos + s.len()) == s,
{
    lemma_matched_stands(text, pos, s, 0);
    if s.len() > 0 {
        assert(stands(text, pos, s, s.len() - 1));
    }
    assert forall|j: int| 0 <= j < s.len() implies text.subrange(pos, pos + s.len())[j] == s[j] by {
        assert(stands(text, pos, s, j));
    }
    assert(text.subrange(pos, pos + s.len()) =~= s);
}

/// What has been read as a gap is one.
proof fn lemma_gap_read(text: Seq<u8>, pos: int, part: XbmPart)
    requires
        0 <= pos <= text.len(),
        grammar::gap(text, pos, part).1 is Ok,
    ensures
        pos < grammar::gap(text, pos, part).0 <= text.len(),
        is_gap(text.subrange(pos, grammar::gap(text, pos, part).0)),
{
    lemma_run_bound(text, pos, grammar::CharClass::Blank);
    lemma_run_class(text, pos, grammar::CharClass::Blank);
    let g = text.subrange(pos, grammar::gap(text, pos, part).0);
    assert forall|i: int| 0 <= i < g.len() implies #[trigger] g[i] == 32 || g[i] == 9 by {
        assert(grammar::in_class(grammar::CharClass::Blank, text[pos + i]));
    }
}

/// What has been read as the end of a line is one: a gap, a number, and a newline.
proof fn lemma_line_value_read(text: Seq<u8>, pos: int, part: XbmPart) -> (r: (Seq<u8>, Seq<u8>))
    requires
        0 <= pos <= text.len(),
        grammar::line_value(text, pos, part).1 is Ok,
    ensures
        ({
            let (p, digits) = grammar::line_value(text, pos, part);
            let (g2, g3) = r;
            &&& pos <= p <= text.len()
            &&& text.subrange(pos, p) == g2 + digits->Ok_0 + g3 + seq![10u8]
            &&& g2.len() > 0 && is_gap(g2)
            &&& is_gap(g3)
            &&& digits->Ok_0.len() <= 11
        }),
{
    reveal(grammar::line_value);
    lemma_gap_read(text, pos, part);
    let p1 = grammar::gap(text, pos, part).0;
    lemma_run_bound(text, p1, grammar::CharClass::Token);
    let p2 = grammar::token(text, p1, 11, part).0;
    lemma_run_bound(text, p2, grammar::CharClass::Blank);
    lemma_run_class(text, p2, grammar::CharClass::Blank);
    let p3 = p2 + grammar::run_len(text, p2, grammar::CharClass::Blank);
    let g2 = text.subrange(pos, p1);
    let digits = text.subrange(p1, p2);
    let g3 = text.subrange(p2, p3);
    assert forall|i: int| 0 <= i < g3.len() implies #[trigger] g3[i] == 32 || g3[i] == 9 by {
        assert(grammar::in_class(grammar::CharClass::Blank, text[p2 + i]));
    }
    assert(text.subrange(pos, p3 + 1) =~= g2 + digits + g3 + seq![10u8]);
    (g2, g3)
}

/// A line that is read as one that gives a value to a symbol is `#define`, the symbol and the digits,
/// with gaps between them, and gaps and a newline behind them. There are at most eleven digits.
pub proof fn law_define_lines(
    text: Seq<u8>,
    pos: int,
    name: Seq<u8>,
    suffix: Seq<u8>,
    part: XbmPart,
)
    requires
        0 <= pos <= text.len(),
        grammar::define_line(text, pos, name, suffix, part).1 is Ok,
    ensures
        ({
            let (p, digits) = grammar::define_line(text, pos, name, suffix, part);
            &&& pos <= p <= text.len()
            &&& is_define(text.subrange(pos, p), name + suffix, digits->Ok_0)
            &&& digits->Ok_0.len() <= 11
        }),
{
    reveal(grammar::define_line);
    reveal_strlit("#define");
    let def = decimal::ascii("#define"@);
    lemma_fixed_read(text, pos, def, part);
    let p1 = pos + def.len();
    lemma_gap_read(text, p1, part);
    let p2 = grammar::gap(text, p1, part).0;
    lemma_fixed_read(text, p2, name, part);
    let p3 = p2 + name.len();
    lemma_fixed_read(text, p3, suffix, part);
    let p4 = p3 + suffix.len();
    let (g2, g3) = lemma_line_value_read(text, p4, part);
    let (p, digits) = grammar::line_value(text, p4, part);
    let g1 = text.subrange(p1, p2);
    let s = text.subrange(pos, p);
    assert(s =~= text.subrange(pos, p1) + g1 + text.subrange(p2, p3) + text.subrange(p3, p4)
        + text.subrange(p4, p));
    assert(s =~= def + g1 + (name + suffix) + g2 + digits->Ok_0 + g3 + seq![10u8]);
    assert(define_parts(s, name + suffix, digits->Ok_0, g1, g2, g3));
}

/// The line that states the width gives a value to a symbol that ends with `_width`. What stands before
/// that is the name.
pub proof fn law_width_lines(text: Seq<u8>, pos: int)
    requires
        0 <= pos <= text.len(),
        grammar::width_line(text, pos).1 is Ok,
    ensures
        ({
            let (p, r) = grammar::width_line(text, pos);
            let (name, digits) = r->Ok_0;
            &&& pos <= p <= text.len()
            &&& is_define(text.subrange(pos, p), name + decimal::ascii("_width"@), digits)
            &&& name.len() + 6 <= 256
            &&& digits.len() <= 11
            &&& forall|i: int|
                0 <= i < name.len() ==> #[trigger] name[i] != 32 && name[i] != 9 && name[i] != 10
        }),
{
    reveal(grammar::width_line);
    reveal_strlit("#define");
    reveal_strlit("_width");
    let part = XbmPart::Width;
    let def = decimal::ascii("#define"@);
    let suffix = decimal::ascii("_width"@);
    lemma_fixed_read(text, pos, def, part);
    let p1 = pos + def.len();
    lemma_gap_read(text, p1, part);
    let p2 = grammar::gap(text, p1, part).0;
    lemma_run_bound(text, p2, grammar::CharClass::Token);
    lemma_run_class(text, p2, grammar::CharClass::Token);
    let p4 = p2 + grammar::run_len(text, p2, grammar::CharClass::Token);
    let symbol = text.subrange(p2, p4);
    let name = symbol.take(symbol.len() - 6);
    assert(symbol =~= name + suffix) by {
        assert(symbol.skip(symbol.len() - 6) == suffix);
        assert(symbol =~= name + symbol.skip(symbol.len() - 6));
    }
    assert forall|i: int| 0 <= i < name.len() implies #[trigger] name[i] != 32 && name[i] != 9
        && name[i] != 10 by {
        assert(name[i] == text[p2 + i]);
        assert(grammar::in_class(grammar::CharClass::Token, text[p2 + i]));
    }
    let (g2, g3) = lemma_line_value_read(text, p4, part);
    let (p, digits) = grammar::line_value(text, p4, part);
    let g1 = text.subrange(p1, p2);
    let s = text.subrange(pos, p);
    assert(s =~= text.subrange(pos, p1) + g1 + symbol + text.subrange(p4, p));
    assert(s =~= def + g1 + (name + suffix) + g2 + digits->Ok_0 + g3 + seq![10u8]);
    assert(define_parts(s, name + suffix, digits->Ok_0, g1, g2, g3));
}

/// Whether a text begins with the lines for a width and a height, which end at these positions, and
/// have these digits.
pub open spec fn begins_with_sizes(
    text: Seq<u8>,
    name: Seq<u8>,
    header: XbmHeaderData,
    p1: int,
    p2: int,
    d1: Seq<u8>,
    d2: Seq<u8>,
) -> bool {
    &&& 0 <= p1 <= p2 <= text.len()
    &&& is_define(text.subrange(0, p1), name + decimal::ascii("_width"@), d1)
    &&& is_define(text.subrange(p1, p2), name + decimal::ascii("_height"@), d2)
    &&& decimal::u32_of(d1) == Some(header.width)
    &&& decimal::u32_of(d2) == Some(header.height)
}

/// A header that is read begins with a line for the width, and then has one for the height, both of the
/// same name, and the numbers there are those of the image. They are not zero.
pub proof fn law_headers_begin_with_sizes(text: Seq<u8>)
    requires
        grammar::header(text, 0).1 is Ok,
    ensures
        ({
            let (name, header) = grammar::header(text, 0).1->Ok_0;
            &&& header.width > 0
            &&& header.height > 0
            &&& exists|p1: int, p2: int, d1: Seq<u8>, d2: Seq<u8>| #[trigger]
                begins_with_sizes(text, name, header, p1, p2, d1, d2)
        }),
{
    law_width_lines(text, 0);
    let (p1, r1) = grammar::width_line(text, 0);
    let (name, d1) = r1->Ok_0;
    let suffix = decimal::ascii("_height"@);
    law_define_lines(text, p1, name, suffix, XbmPart::Height);
    let (p2, r2) = grammar::define_line(text, p1, name, suffix, XbmPart::Height);
    let d2 = r2->Ok_0;
    let (found, header) = grammar::header(text, 0).1->Ok_0;
    assert(found == name);
    assert(header.width > 0 && header.height > 0);
    assert(begins_with_sizes(text, name, header, p1, p2, d1, d2));
}

/// An element of the array is `0x` or `0X` and two digits. Before it there are only spaces, tabs and
/// newlines and, unless it is the first one, exactly one comma.
pub proof fn law_elements_are_separated(text: Seq<u8>, pos: int, count: nat)
    requires
        0 <= pos <= text.len(),
        grammar::element(text, pos, count).1 is Ok,
    ensures
        ({
            let (p, b) = grammar::element(text, pos, count);
            &&& pos + 4 <= p <= text.len()
            &&& is_hex(text.subrange(p - 4, p), b->Ok_0)
            &&& count == 0 ==> is_white(text.subrange(pos, p - 4))
            &&& count > 0 ==> exists|k: int|
                {
                    &&& pos <= k < p - 4
                    &&& #[trigger] text[k] == 44
                    &&& is_white(text.subrange(pos, k))
                    &&& is_white(text.subrange(k + 1, p - 4))
                }
        }),
{
    let part = XbmPart::Data;
    lemma_white_read(text, pos);
    let k = grammar::skip_space(text, pos);
    if count == 0 {
        law_hex_bytes(text, k, part, 0, 0);
        assert(text.subrange(pos, k) =~= text.subrange(pos, grammar::element(text, pos, count).0 - 4));
    } else {
        reveal_strlit(",");
        let comma = decimal::ascii(","@);
        lemma_fixed_read(text, k, comma, part);
        assert(text[k] == text.subrange(k, k + 1)[0]);
        assert(text[k] == 44);
        lemma_white_read(text, k + 1);
        let q = grammar::skip_space(text, k + 1);
        law_hex_bytes(text, q, part, 0, 0);
        assert(is_white(text.subrange(pos, k)));
        assert(is_white(text.subrange(k + 1, q)));
    }
}

/// What has been skipped is white.
proof fn lemma_white_read(text: Seq<u8>, pos: int)
    requires
        0 <= pos <= text.len(),
    ensures
        pos <= grammar::skip_space(text, pos) <= text.len(),
        is_white(text.subrange(pos, grammar::skip_space(text, pos))),
{
    lemma_run_bound(text, pos, grammar::CharClass::Space);
    lemma_run_class(text, pos, grammar::CharClass::Space);
    let g = text.subrange(pos, grammar::skip_space(text, pos));
    assert forall|i: int| 0 <= i < g.len() implies #[trigger] g[i] == 32 || g[i] == 9 || g[i]
        == 10 by {
        assert(grammar::in_class(grammar::CharClass::Space, text[pos + i]));
    }
}

/// Whether the hotspot is stated in two lines, which end at these positions, and have these digits.
pub open spec fn states_hotspot(
    text: Seq<u8>,
    pos: int,
    name: Seq<u8>,
    x: i32,
    y: i32,
    p1: int,
    p2: int,
    d1: Seq<u8>,
    d2: Seq<u8>,
) -> bool {
    &&& pos <= p1 <= p2 <= text.len()
    &&& is_define(text.subrange(pos, p1), name + decimal::ascii("_x_hot"@), d1)
    &&& is_define(text.subrange(p1, p2), name + decimal::ascii("_y_hot"@), d2)
    &&& decimal::i32_of(d1) == Some(x)
    &&& decimal::i32_of(d2) == Some(y)
}

/// A hotspot is read where there are a line for its column and one for its row, in this order. Where
/// the array follows instead, there is none.
pub proof fn law_hotspots(text: Seq<u8>, pos: int, name: Seq<u8>)
    requires
        0 <= pos <= text.len(),
        grammar::hotspot_lines(text, pos, name).1 is Ok,
    ensures
        match grammar::hotspot_lines(text, pos, name) {
            (p, Ok(Some((x, y)))) => exists|p1: int, d1: Seq<u8>, d2: Seq<u8>| #[trigger]
                states_hotspot(text, pos, name, x, y, p1, p, d1, d2),
            (p, Ok(None)) => p == pos && pos < text.len() && text[pos] == 's' as u8,
            _ => false,
        },
{
    reveal(grammar::hotspot_lines);
    if let (p, Ok(Some((x, y)))) = grammar::hotspot_lines(text, pos, name) {
        let sx = decimal::ascii("_x_hot"@);
        let sy = decimal::ascii("_y_hot"@);
        law_define_lines(text, pos, name, sx, XbmPart::HotspotX);
        let (p1, r1) = grammar::define_line(text, pos, name, sx, XbmPart::HotspotX);
        law_define_lines(text, p1, name, sy, XbmPart::HotspotY);
        let (p2, r2) = grammar::define_line(text, p1, name, sy, XbmPart::HotspotY);
        assert(states_hotspot(text, pos, name, x, y, p1, p2, r1->Ok_0, r2->Ok_0));
    }
}

/// Whether `s` is the start of the array, with this element type, and these gaps in it.
pub open spec fn array_parts(
    s: Seq<u8>,
    name: Seq<u8>,
    kind: Seq<u8>,
    g1: Seq<u8>,
    g2: Seq<u8>,
    g3: Seq<u8>,
    g4: Seq<u8>,
) -> bool {
    &&& s == decimal::ascii("static"@) + g1 + kind + g2 + name + decimal::ascii("_bits[]"@) + g3
        + decimal::ascii("="@) + g4 + decimal::ascii("{"@)
    &&& g1.len() > 0 && is_gap(g1)
    &&& g2.len() > 0 && is_gap(g2)
    &&& g3.len() > 0 && is_gap(g3)
    &&& g4.len() > 0 && is_gap(g4)
}

/// Whether `kind` is `char`, or `unsigned` and `char` with a gap between them.
pub open spec fn is_element_type(kind: Seq<u8>) -> bool {
    ||| kind == decimal::ascii("char"@)
    ||| exists|g: Seq<u8>|
        g.len() > 0 && is_gap(g) && kind == #[trigger] (decimal::ascii("unsigned"@) + g)
            + decimal::ascii("char"@)
}

/// What has been read as an element type is one.
proof fn lemma_array_type_read(text: Seq<u8>, pos: int)
    requires
        0 <= pos <= text.len(),
        grammar::array_type(text, pos).1 is Ok,
    ensures
        ({
            let p = grammar::array_type(text, pos).0;
            &&& pos <= p <= text.len()
            &&& is_element_type(text.subrange(pos, p))
        }),
{
    let part = XbmPart::Array;
    let ch = decimal::ascii("char"@);
    let un = decimal::ascii("unsigned"@);
    let p = grammar::array_type(text, pos).0;
    if text[pos] == 'c' as u8 {
        lemma_fixed_read(text, pos, ch, part);
    } else {
        lemma_fixed_read(text, pos, un, part);
        let p1 = pos + un.len();
        lemma_gap_read(text, p1, part);
        let p2 = grammar::gap(text, p1, part).0;
        lemma_fixed_read(text, p2, ch, part);
        let g = text.subrange(p1, p2);
        assert(text.subrange(pos, p) =~= (un + g) + ch) by {
            assert(text.subrange(pos, p) =~= text.subrange(pos, p1) + g + text.subrange(p2, p));
        }
    }
}

/// The array that is read starts with `static`, its element type, the name of the image with `_bits[]`
/// behind it, an equals sign and a brace, with gaps between them.
pub proof fn law_array_starts(text: Seq<u8>, pos: int, name: Seq<u8>)
    requires
        0 <= pos <= text.len(),
        grammar::array_start(text, pos, name).1 is Ok,
    ensures
        ({
            let p = grammar::array_start(text, pos, name).0;
            &&& pos <= p <= text.len()
            &&& exists|kind: Seq<u8>, g1: Seq<u8>, g2: Seq<u8>, g3: Seq<u8>, g4: Seq<u8>|
                is_element_type(kind) && #[trigger] array_parts(
                    text.subrange(pos, p),
                    name,
                    kind,
                    g1,
                    g2,
                    g3,
                    g4,
                )
        }),
{
    reveal(grammar::array_start);
    let part = XbmPart::Array;
    let st = decimal::ascii("static"@);
    let bits = decimal::ascii("_bits[]"@);
    let eq = decimal::ascii("="@);
    let brace = decimal::ascii("{"@);
    lemma_fixed_read(text, pos, st, part);
    let p1 = pos + st.len();
    lemma_gap_read(text, p1, part);
    let p2 = grammar::gap(text, p1, part).0;
    lemma_array_type_read(text, p2);
    let p3 = grammar::array_type(text, p2).0;
    lemma_gap_read(text, p3, part);
    let p4 = grammar::gap(text, p3, part).0;
    lemma_fixed_read(text, p4, name, part);
    let p5 = p4 + name.len();
    lemma_fixed_read(text, p5, bits, part);
    let p6 = p5 + bits.len();
    lemma_gap_read(text, p6, part);
    let p7 = grammar::gap(text, p6, part).0;
    lemma_fixed_read(text, p7, eq, part);
    let p8 = p7 + eq.len();
    lemma_gap_read(text, p8, part);
    let p9 = grammar::gap(text, p8, part).0;
    lemma_fixed_read(text, p9, brace, part);
    let p = p9 + brace.len();
    let kind = text.subrange(p2, p3);
    let g1 = text.subrange(p1, p2);
    let g2 = text.subrange(p3, p4);
    let g3 = text.subrange(p6, p7);
    let g4 = text.subrange(p8, p9);
    assert(text.subrange(pos, p) =~= text.subrange(pos, p1) + g1 + kind + g2 + text.subrange(p4, p5)
        + text.subrange(p5, p6) + g3 + text.subrange(p7, p8) + g4 + text.subrange(p9, p));
    assert(array_parts(text.subrange(pos, p), name, kind, g1, g2, g3, g4));
}

/// Whether an error, if there is one, states the location behind the last character that was read.
spec fn located<T>(text: Seq<u8>, parsed: grammar::Parsed<T>) -> bool {
    parsed.1 matches Err(XbmDecodeError::Parse(_, l)) ==> l == grammar::location(text, parsed.0)
}

/// Errors of lines are located.
proof fn lemma_lines_located(text: Seq<u8>, pos: int, name: Seq<u8>, suffix: Seq<u8>, part: XbmPart)
    ensures
        located(text, grammar::line_value(text, pos, part)),
        located(text, grammar::define_line(text, pos, name, suffix, part)),
        located(text, grammar::width_line(text, pos)),
{
    assert forall|p: int, q: XbmPart| located(text, #[trigger] grammar::line_value(text, p, q)) by {
        reveal(grammar::line_value);
    }
    reveal(grammar::define_line);
    reveal(grammar::width_line);
}

/// Errors of the hotspot and the array are located.
proof fn lemma_array_located(text: Seq<u8>, pos: int, name: Seq<u8>)
    ensures
        located(text, grammar::hotspot_lines(text, pos, name)),
        located(text, grammar::array_start(text, pos, name)),
{
    assert(located(text, grammar::hotspot_lines(text, pos, name))) by {
        reveal(grammar::hotspot_lines);
        let sx = decimal::ascii("_x_hot"@);
        let sy = decimal::ascii("_y_hot"@);
        lemma_lines_located(text, pos, name, sx, XbmPart::HotspotX);
        let p = grammar::define_line(text, pos, name, sx, XbmPart::HotspotX).0;
        lemma_lines_located(text, p, name, sy, XbmPart::HotspotY);
    }
    assert(located(text, grammar::array_start(text, pos, name))) by {
        reveal(grammar::array_start);
    }
}

/// The location that an error in the header states is that behind the last character that was read.
pub proof fn law_header_error_locations(text: Seq<u8>, pos: int)
    ensures
        grammar::header(text, pos).1 matches Err(XbmDecodeError::Parse(_, l)) ==> l
            == grammar::location(text, grammar::header(text, pos).0),
{
    let height = decimal::ascii("_height"@);
    lemma_lines_located(text, pos, Seq::empty(), height, XbmPart::Width);
    if let (p1, Ok((name, _))) = grammar::width_line(text, pos) {
        lemma_lines_located(text, p1, name, height, XbmPart::Height);
        let p2 = grammar::define_line(text, p1, name, height, XbmPart::Height).0;
        lemma_array_located(text, p2, name);
        lemma_array_located(text, grammar::hotspot_lines(text, p2, name).0, name);
    }
}

/// The location that an error in the array, or behind it, states is that behind the last character that
/// was read.
pub proof fn law_data_error_locations(text: Seq<u8>, pos: int, count: nat, size: nat)
    ensures
        grammar::next_element(text, pos, count, size).1 matches Err(XbmDecodeError::Parse(_, l))
            ==> l == grammar::location(text, grammar::next_element(text, pos, count, size).0),
{
    reveal(grammar::next_element);
}

/// Which part of the text an error states: that in which the error is.
pub proof fn law_error_parts(
    text: Seq<u8>,
    pos: int,
    name: Seq<u8>,
    suffix: Seq<u8>,
    part: XbmPart,
    count: nat,
    size: nat,
)
    ensures
        grammar::width_line(text, pos).1 matches Err(e) ==> (e matches XbmDecodeError::Parse(p, _)
            && p is Width),
        grammar::define_line(text, pos, name, suffix, part).1 matches Err(e) ==> (
        e matches XbmDecodeError::Parse(p, _) && p == part),
        grammar::array_start(text, pos, name).1 matches Err(e) ==> (e matches XbmDecodeError::Parse(
            p,
            _,
        ) && p is Array),
        grammar::next_element(text, pos, count, size).1 matches Err(e) ==> (
        e matches XbmDecodeError::Parse(p, _) && (if count < size {
            p is Data
        } else {
            p is ArrayEnd || p is Trailing
        })),
{
    reveal(grammar::width_line);
    reveal(grammar::define_line);
    reveal(grammar::line_value);
    reveal(grammar::array_start);
    reveal(grammar::next_element);
}

/// Where a number in the header cannot be read, or is zero, the error says which.
pub proof fn law_number_errors(text: Seq<u8>)
    requires
        grammar::width_line(text, 0).1 is Ok,
    ensures
        ({
            let (p, r) = grammar::width_line(text, 0);
            let (name, digits) = r->Ok_0;
            let height = grammar::define_line(
                text,
                p,
                name,
                decimal::ascii("_height"@),
                XbmPart::Height,
            );
            let parsed = grammar::header(text, 0).1;
            match decimal::u32_of(digits) {
                None => parsed == Err::<(Seq<u8>, XbmHeaderData), XbmDecodeError>(
                    XbmDecodeError::DecodeInteger(XbmPart::Width),
                ),
                Some(w) => if w == 0 {
                    parsed == Err::<(Seq<u8>, XbmHeaderData), XbmDecodeError>(
                        XbmDecodeError::ZeroWidth,
                    )
                } else {
                    height.1 matches Ok(d) ==> match decimal::u32_of(d) {
                        None => parsed == Err::<(Seq<u8>, XbmHeaderData), XbmDecodeError>(
                            XbmDecodeError::DecodeInteger(XbmPart::Height),
                        ),
                        Some(h) => h == 0 ==> parsed == Err::<
                            (Seq<u8>, XbmHeaderData),
                            XbmDecodeError,
                        >(XbmDecodeError::ZeroHeight),
                    }
                },
            }
        }),
{
}

/// Texts of errors hold the numbers of the error, in decimal.
pub proof fn law_location_texts(byte: u64, line: u64, column: u64)
    ensures
        (TextLocation { byte, line, column }).text() == "byte="@ + decimal::decimal_text(byte as nat)
            + (",line="@ + decimal::decimal_text(line as nat) + (":col="@ + decimal::decimal_text(
            column as nat,
        ))),
{
    let l = TextLocation { byte, line, column };
    assert(l.text() =~= "byte="@ + decimal::decimal_text(byte as nat) + (",line="@
        + decimal::decimal_text(line as nat) + (":col="@ + decimal::decimal_text(column as nat))));
}

/// What is read comes of the text as long as its end has not been reached. At the end, an error of the
/// reader comes first: what stands there may only be the start of what the reader would have delivered.
pub proof fn law_outcomes<T, E>(text: Seq<u8>, parsed: grammar::Parsed<T>, fault: Option<E>)
    ensures
        fault is Some && parsed.0 == text.len() ==> grammar::outcome(text, parsed, fault) == Err::<
            T,
            CodecError<E>,
        >(CodecError::IoError(IoFailure::Reader(fault->0))),
        fault is None || parsed.0 != text.len() ==> match (
            parsed.1,
            grammar::outcome(text, parsed, fault),
        ) {
            (Ok(v), Ok(w)) => v == w,
            (Err(e), Err(CodecError::Decoding(DecodingError::Xbm(f)))) => e == f,
            _ => false,
        },
{
}

} // verus!
