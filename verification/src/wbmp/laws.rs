//! That decoding an image gives back what was encoded.

use vstd::prelude::*;

use super::{WbmpDecoder, WbmpEncoder, WbmpProblem};
use crate::source::ByteSource;
use crate::types::{CodecError, EncodingError, ExtendedColorType, IoFailure, UnsupportedFeature};

verus! {

/// Reading the digits of a number leaves the number.
proof fn lemma_number_prefix(n: nat, rest: Seq<u8>)
    requires
        n <= u32::MAX,
    ensures
        super::number_value(super::number_prefix(n) + rest, 0) == super::number_value(
            rest,
            n as u32,
        ),
    decreases n,
{
    if n == 0 {
        assert(super::number_prefix(n) + rest =~= rest);
    } else {
        let d = (128 + n % 128) as u8;
        let more = seq![d] + rest;
        assert(super::number_prefix(n) + rest =~= super::number_prefix(n / 128) + more);
        lemma_number_prefix(n / 128, more);
        assert(more.drop_first() =~= rest);
        assert((n / 128) * 128 + n % 128 == n);
    }
}

/// Reading a number gives back the number that was written, whatever follows it.
pub proof fn law_number_round_trip(n: u32, rest: Seq<u8>)
    ensures
        super::number_value(super::number_bytes(n as nat) + rest, 0) == Some((n, rest)),
{
    let k = n as nat;
    let d = (k % 128) as u8;
    let more = seq![d] + rest;
    assert(super::number_bytes(k) + rest =~= super::number_prefix(k / 128) + more);
    lemma_number_prefix(k / 128, more);
    assert(more.drop_first() =~= rest);
    assert((k / 128) * 128 + k % 128 == k);
}

/// Reading a header gives back the size that was written, whatever follows it.
pub proof fn law_header_round_trip(width: u32, height: u32, rest: Seq<u8>)
    ensures
        super::header_value(super::header_bytes(width, height) + rest) == Ok::<
            (u32, u32, Seq<u8>),
            WbmpProblem,
        >((width, height, rest)),
{
    let w = super::number_bytes(width as nat);
    let h = super::number_bytes(height as nat);
    let s = super::header_bytes(width, height) + rest;
    assert(s.skip(2) =~= w + (h + rest));
    law_number_round_trip(width, h + rest);
    law_number_round_trip(height, rest);
}

/// The bits of a byte are those that it is made of.
proof fn lemma_byte_of(
    b0: bool,
    b1: bool,
    b2: bool,
    b3: bool,
    b4: bool,
    b5: bool,
    b6: bool,
    b7: bool,
)
    ensures
        ({
            let b = super::byte_of(b0, b1, b2, b3, b4, b5, b6, b7);
            &&& super::bit(b, 0) == b0
            &&& super::bit(b, 1) == b1
            &&& super::bit(b, 2) == b2
            &&& super::bit(b, 3) == b3
            &&& super::bit(b, 4) == b4
            &&& super::bit(b, 5) == b5
            &&& super::bit(b, 6) == b6
            &&& super::bit(b, 7) == b7
        }),
{
}

/// Decoding an encoded image into a buffer of zeros gives, for every pixel, `0xff` if its
/// brightness is not below the threshold, and else 0. The image has the size that was encoded.
pub proof fn law_image_round_trip(
    rgba: bool,
    image: Seq<u8>,
    width: u32,
    height: u32,
    threshold: u8,
    buf: Seq<u8>,
)
    requires
        image.len() == width * height * super::samples(rgba),
        buf.len() == width * height,
        forall|p: int| 0 <= p < buf.len() ==> #[trigger] buf[p] == 0,
    ensures
        ({
            let rows = super::packed_rows(rgba, image, width as nat, height as nat, threshold);
            &&& super::header_value(super::header_bytes(width, height) + rows) == Ok::<
                (u32, u32, Seq<u8>),
                WbmpProblem,
            >((width, height, rows))
            &&& rows.len() == super::row_bytes(width as nat) * height
            &&& forall|p: int|
                0 <= p < buf.len() ==> #[trigger] super::whitened(
                    rows,
                    width as nat,
                    height as nat,
                    buf,
                )[p] == (if super::brightness(rgba, image, p) >= threshold {
                    0xffu8
                } else {
                    0u8
                })
        }),
{
    let w = width as int;
    let rb = super::row_bytes(width as nat) as int;
    let rows = super::packed_rows(rgba, image, width as nat, height as nat, threshold);
    law_header_round_trip(width, height, rows);
    assert forall|p: int| 0 <= p < buf.len() implies #[trigger] super::whitened(
        rows,
        width as nat,
        height as nat,
        buf,
    )[p] == (if super::brightness(rgba, image, p) >= threshold {
        0xffu8
    } else {
        0u8
    }) by {
        let y = p / w;
        let x = p % w;
        assert(w > 0) by (nonlinear_arith)
            requires
                w >= 0,
                0 <= p < w * height,
        ;
        assert(p == y * w + x && 0 <= x < w && 0 <= y < height) by (nonlinear_arith)
            requires
                y == p / w,
                x == p % w,
                w > 0,
                0 <= p < w * height,
        ;
        let j = y * rb + x / 8;
        assert(0 <= j < rb * height && (y + 1) * rb <= rb * height) by (nonlinear_arith)
            requires
                j == y * rb + x / 8,
                0 <= x / 8 < rb,
                0 <= y,
                y + 1 <= height,
        ;
        vstd::arithmetic::div_mod::lemma_fundamental_div_mod_converse(j, rb, y, x / 8);
        let x0 = (x / 8) * 8;
        let width = width as nat;
        lemma_byte_of(
            super::is_bright(rgba, image, width, threshold, y, x0),
            super::is_bright(rgba, image, width, threshold, y, x0 + 1),
            super::is_bright(rgba, image, width, threshold, y, x0 + 2),
            super::is_bright(rgba, image, width, threshold, y, x0 + 3),
            super::is_bright(rgba, image, width, threshold, y, x0 + 4),
            super::is_bright(rgba, image, width, threshold, y, x0 + 5),
            super::is_bright(rgba, image, width, threshold, y, x0 + 6),
            super::is_bright(rgba, image, width, threshold, y, x0 + 7),
        );
        assert(x == x0 + x % 8);
        assert(super::bit(rows[j], x % 8) == super::is_bright(rgba, image, width, threshold, y, x));
    }
}

/// A number is made of digits to the base 128, the most significant one first. All but the last one
/// have 128 added to them. What does not fit into 32 bits is lost.
pub proof fn law_numbers(high: u32, b: u8, rest: Seq<u8>)
    ensures
        super::number_value(Seq::empty(), high) is None,
        b < 128 ==> super::number_value(seq![b] + rest, high) == Some(
            (((high * 128 + b) % 0x1_0000_0000) as u32, rest),
        ),
        b >= 128 ==> super::number_value(seq![b] + rest, high) == super::number_value(
            rest,
            ((high * 128 + (b - 128)) % 0x1_0000_0000) as u32,
        ),
{
    let s = seq![b] + rest;
    assert(s.drop_first() =~= rest);
    assert((high * 128) % 0x1_0000_0000 + b % 128 == (high * 128 + b % 128) % 0x1_0000_0000);
}

/// What the header of a file says: the type is zero, and there are no extensions; then come the width
/// and the height. Files of other types, or with extensions, are refused as not supported. Where the
/// file ends too early, the error is that of the reader, or that there is no more.
pub proof fn law_opening_a_file<E>(source: ByteSource<E>, res: Result<WbmpDecoder<E>, CodecError<E>>)
    requires
        WbmpDecoder::opened(source, res),
    ensures
        ({
            let file = source.rest();
            let ends = CodecError::<E>::IoError(
                match source.fault {
                    Some(f) => IoFailure::Reader(f),
                    None => IoFailure::UnexpectedEof,
                },
            );
            if file.len() > 0 && file[0] != 0 {
                res == Err::<WbmpDecoder<E>, CodecError<E>>(
                    CodecError::Unsupported(UnsupportedFeature::WbmpType(file[0])),
                )
            } else if file.len() > 1 && file[1] >= 128 {
                res == Err::<WbmpDecoder<E>, CodecError<E>>(
                    CodecError::Unsupported(UnsupportedFeature::WbmpExtensionHeaders),
                )
            } else if file.len() < 2 {
                res == Err::<WbmpDecoder<E>, CodecError<E>>(ends)
            } else {
                match super::number_value(file.skip(2), 0) {
                    None => res == Err::<WbmpDecoder<E>, CodecError<E>>(ends),
                    Some((width, rest)) => match super::number_value(rest, 0) {
                        None => res == Err::<WbmpDecoder<E>, CodecError<E>>(ends),
                        Some((height, pixels)) => res matches Ok(d) && {
                            &&& d.layout().width == width
                            &&& d.layout().height == height
                            &&& d.layout().color.channels() == 1
                            &&& !d.layout().color.is_deep()
                            &&& d.unread() == pixels
                        },
                    },
                }
            }
        }),
{
}

/// Opening a file that was written gives an image of the size that was written.
pub proof fn law_size_of_a_file<E>(
    source: ByteSource<E>,
    res: Result<WbmpDecoder<E>, CodecError<E>>,
    width: u32,
    height: u32,
    pixels: Seq<u8>,
)
    requires
        WbmpDecoder::opened(source, res),
        source.rest() == super::header_bytes(width, height) + pixels,
    ensures
        res matches Ok(d) && d.layout().width == width && d.layout().height == height && d.unread()
            == pixels,
{
    law_header_round_trip(width, height, pixels);
}

/// Bits of a byte, counting from the most significant one.
proof fn lemma_bit(b: u8, i: int)
    requires
        0 <= i < 8,
    ensures
        super::bit(b, i) <==> (b >> ((7 - i) as u8)) & 1 == 1,
{
    assert((b >= 128) == ((b >> 7u8) & 1 == 1)) by (bit_vector);
    assert(((b / 64) % 2 == 1) == ((b >> 6u8) & 1 == 1)) by (bit_vector);
    assert(((b / 32) % 2 == 1) == ((b >> 5u8) & 1 == 1)) by (bit_vector);
    assert(((b / 16) % 2 == 1) == ((b >> 4u8) & 1 == 1)) by (bit_vector);
    assert(((b / 8) % 2 == 1) == ((b >> 3u8) & 1 == 1)) by (bit_vector);
    assert(((b / 4) % 2 == 1) == ((b >> 2u8) & 1 == 1)) by (bit_vector);
    assert(((b / 2) % 2 == 1) == ((b >> 1u8) & 1 == 1)) by (bit_vector);
    assert((b % 2 == 1) == ((b >> 0u8) & 1 == 1)) by (bit_vector);
}

/// Column `x` of row `y` becomes 255 if bit `x % 8` is set of byte `x / 8` of that row, counting from
/// the most significant one; else it stays as it is. Reading succeeds where all rows are there.
pub proof fn law_pixels_are_bits<E>(
    before: WbmpDecoder<E>,
    buf0: Seq<u8>,
    after: WbmpDecoder<E>,
    buf1: Seq<u8>,
    r: Result<(), CodecError<E>>,
    x: int,
    y: int,
)
    requires
        WbmpDecoder::taken(before, buf0, after, buf1, r),
        buf0.len() == before.layout().width * before.layout().height,
        0 <= x < before.layout().width,
        0 <= y < before.layout().height,
    ensures
        ({
            let width = before.layout().width as int;
            let height = before.layout().height as int;
            let row = (width + 7) / 8;
            let data = before.unread();
            &&& buf1.len() == buf0.len()
            &&& r is Ok <==> data.len() >= row * height
            &&& r is Err ==> r->Err_0 == CodecError::<E>::IoError(
                match before.fault {
                    Some(f) => IoFailure::Reader(f),
                    None => IoFailure::UnexpectedEof,
                },
            )
            &&& r is Ok ==> buf1[y * width + x] == (if (data[y * row + x / 8] >> ((7 - x % 8) as u8))
                & 1 == 1 {
                255u8
            } else {
                buf0[y * width + x]
            })
        }),
{
    let w = before.layout().width as int;
    let h = before.layout().height as int;
    let rb = (w + 7) / 8;
    let p = y * w + x;
    vstd::arithmetic::div_mod::lemma_fundamental_div_mod_converse(p, w, y, x);
    assert(0 <= p < w * h) by (nonlinear_arith)
        requires
            p == y * w + x,
            0 <= x < w,
            0 <= y,
            y + 1 <= h,
    ;
    assert((y + 1) * rb <= rb * h) by (nonlinear_arith)
        requires
            0 <= y,
            y + 1 <= h,
            rb >= 0,
    ;
    lemma_bit(before.unread()[y * rb + x / 8], x % 8);
}

/// In an encoded image, bit `x % 8` of byte `x / 8` of row `y`, counting from the most significant one,
/// is set if the pixel is not darker than the threshold: by its value, or by the average of its four
/// samples. Bits behind the last column are not set.
pub proof fn law_encoded_bits(
    rgba: bool,
    image: Seq<u8>,
    width: nat,
    height: nat,
    threshold: u8,
    x: int,
    y: int,
)
    requires
        0 <= x < 8 * ((width + 7) / 8),
        0 <= y < height,
        image.len() == width * height * (if rgba {
            4int
        } else {
            1int
        }),
    ensures
        ({
            let row = ((width + 7) / 8) as int;
            let rows = super::packed_rows(rgba, image, width, height, threshold);
            let p = y * width + x;
            let bright = if rgba {
                (image[4 * p] + image[4 * p + 1] + image[4 * p + 2] + image[4 * p + 3]) / 4
                    >= threshold
            } else {
                image[p] >= threshold
            };
            &&& rows.len() == row * height
            &&& (rows[y * row + x / 8] >> ((7 - x % 8) as u8)) & 1 == 1 <==> x < width && bright
        }),
{
    let rb = ((width + 7) / 8) as int;
    let rows = super::packed_rows(rgba, image, width, height, threshold);
    let j = y * rb + x / 8;
    assert(0 <= j < rb * height) by (nonlinear_arith)
        requires
            j == y * rb + x / 8,
            0 <= x / 8 < rb,
            0 <= y,
            y + 1 <= height,
    ;
    vstd::arithmetic::div_mod::lemma_fundamental_div_mod_converse(j, rb, y, x / 8);
    let x0 = (x / 8) * 8;
    lemma_byte_of(
        super::is_bright(rgba, image, width, threshold, y, x0),
        super::is_bright(rgba, image, width, threshold, y, x0 + 1),
        super::is_bright(rgba, image, width, threshold, y, x0 + 2),
        super::is_bright(rgba, image, width, threshold, y, x0 + 3),
        super::is_bright(rgba, image, width, threshold, y, x0 + 4),
        super::is_bright(rgba, image, width, threshold, y, x0 + 5),
        super::is_bright(rgba, image, width, threshold, y, x0 + 6),
        super::is_bright(rgba, image, width, threshold, y, x0 + 7),
    );
    assert(x == x0 + x % 8);
    assert(super::bit(rows[j], x % 8) == super::is_bright(rgba, image, width, threshold, y, x));
    lemma_bit(rows[j], x % 8);
}

/// The header that is written has the type zero, and no extensions; then come the numbers for the width
/// and the height. The last byte of a number is below 128, and stands for what is left of the number
/// when it is divided by 128; those before it are not below 128, and stand for the quotient.
pub proof fn law_written_headers(width: u32, height: u32, n: nat)
    ensures
        super::header_bytes(width, height)[0] == 0,
        super::header_bytes(width, height)[1] == 0,
        super::header_bytes(width, height).skip(2) == super::number_bytes(width as nat)
            + super::number_bytes(height as nat),
        super::number_bytes(n).last() == n % 128,
        n < 128 ==> super::number_bytes(n).len() == 1,
        forall|i: int|
            0 <= i < super::number_bytes(n).len() - 1 ==> #[trigger] super::number_bytes(n)[i] >= 128,
        n >= 128 ==> super::number_bytes(n).len() == super::number_bytes(n / 128).len() + 1,
{
    let w = super::number_bytes(width as nat);
    let h = super::number_bytes(height as nat);
    assert(super::header_bytes(width, height).skip(2) =~= w + h);
    lemma_prefix_digits(n / 128);
}

/// The digits that others follow are marked.
proof fn lemma_prefix_digits(n: nat)
    ensures
        forall|i: int|
            0 <= i < super::number_prefix(n).len() ==> #[trigger] super::number_prefix(n)[i] >= 128,
    decreases n,
{
    if n > 0 {
        lemma_prefix_digits(n / 128);
        let init = super::number_prefix(n / 128);
        let s = super::number_prefix(n);
        assert forall|i: int| 0 <= i < s.len() implies #[trigger] s[i] >= 128 by {
            if i < init.len() {
                assert(s[i] == init[i]);
            }
        }
    }
}

/// What goes wrong with a file is reported as that: what is not supported, as not supported, with the
/// type; what cannot be read, with the error of the reader, if there is one.
pub proof fn law_errors<E>(problem: WbmpProblem, fault: Option<E>)
    ensures
        problem is Io ==> super::problem_error(problem, fault) == CodecError::<E>::IoError(
            match fault {
                Some(f) => IoFailure::Reader(f),
                None => IoFailure::UnexpectedEof,
            },
        ),
        problem matches WbmpProblem::UnsupportedType(t) ==> super::problem_error(problem, fault)
            == CodecError::<E>::Unsupported(UnsupportedFeature::WbmpType(t)),
        problem is UnsupportedHeaders ==> super::problem_error(problem, fault) == CodecError::<
            E,
        >::Unsupported(UnsupportedFeature::WbmpExtensionHeaders),
        problem is Usage <==> super::problem_error(problem, fault) is Decoding,
        problem is InvalidImageData <==> super::problem_error(problem, fault) is Encoding,
{
}

/// Writing an image and reading it again, into a buffer of zeros, gives an image of the same size, with
/// 255 where a pixel is not darker than the threshold: by its value, or by the average of its four
/// samples; and 0 elsewhere.
pub proof fn law_written_images_are_read<E>(
    before: WbmpEncoder,
    image: Seq<u8>,
    width: u32,
    height: u32,
    color_type: ExtendedColorType,
    after: WbmpEncoder,
    r: Result<(), CodecError<E>>,
    source: ByteSource<E>,
    opened: WbmpDecoder<E>,
    buf0: Seq<u8>,
    read: WbmpDecoder<E>,
    buf1: Seq<u8>,
    r1: Result<(), CodecError<E>>,
    p: int,
)
    requires
        WbmpEncoder::written(before, image, width, height, color_type, after, r),
        before.writer@.len() == 0,
        color_type is L8 && image.len() == width * height || color_type is Rgba8 && image.len() == 4 * (
        width * height),
        source.rest() == after.writer@,
        WbmpDecoder::opened(source, Ok(opened)),
        WbmpDecoder::taken(opened, buf0, read, buf1, r1),
        buf0.len() == width * height,
        forall|q: int| 0 <= q < buf0.len() ==> #[trigger] buf0[q] == 0,
        0 <= p < width * height,
    ensures
        r is Ok,
        opened.layout().width == width,
        opened.layout().height == height,
        r1 is Ok,
        buf1[p] == ({
            let bright = if color_type is L8 {
                image[p] >= before.threshold
            } else {
                (image[4 * p] + image[4 * p + 1] + image[4 * p + 2] + image[4 * p + 3]) / 4
                    >= before.threshold
            };
            if bright {
                255u8
            } else {
                0u8
            }
        }),
{
    let rgba = color_type is Rgba8;
    let rows = super::packed_rows(rgba, image, width as nat, height as nat, before.threshold);
    assert(width * height * 4 == 4 * (width * height)) by (nonlinear_arith);
    assert(after.writer@ =~= super::header_bytes(width, height) + rows);
    law_image_round_trip(rgba, image, width, height, before.threshold, buf0);
    assert(super::whitened(rows, width as nat, height as nat, buf0)[p] == buf1[p]);
}

/// Only pixels of one byte of grey, or of four bytes of colour with alpha, are encoded, and only if they
/// fill the image. What has been written before stays.
pub proof fn law_other_pixels_are_refused<E>(
    before: WbmpEncoder,
    image: Seq<u8>,
    width: u32,
    height: u32,
    color_type: ExtendedColorType,
    after: WbmpEncoder,
    r: Result<(), CodecError<E>>,
)
    requires
        WbmpEncoder::written(before, image, width, height, color_type, after, r),
    ensures
        r is Ok <==> color_type is L8 && image.len() == width * height || color_type is Rgba8
            && image.len() == width * height * 4,
        color_type !is L8 && color_type !is Rgba8 ==> r == Err::<(), CodecError<E>>(
            CodecError::Encoding(EncodingError::UnsupportedColorType),
        ),
        color_type is L8 && r is Err ==> r == Err::<(), CodecError<E>>(
            CodecError::Encoding(EncodingError::InvalidImageData),
        ),
        color_type is Rgba8 && r is Err ==> r == Err::<(), CodecError<E>>(
            CodecError::Encoding(EncodingError::InvalidImageData),
        ),
        before.writer@.len() <= after.writer@.len(),
        after.writer@.take(before.writer@.len() as int) == before.writer@,
        after.threshold == before.threshold,
{
    assert(after.writer@.take(before.writer@.len() as int) =~= before.writer@);
    assert(width * height * 1 == width * height) by (nonlinear_arith);
}

} // verus!
