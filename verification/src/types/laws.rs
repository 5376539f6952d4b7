//! What pixels, limits and byte orders have to satisfy.

use vstd::prelude::*;

use super::{ByteOrder, ColorType, DecodedMetadataHint, ImageLayout, Limits};

verus! {

/// The pixels of an image have one to four samples of one or two bytes each: grey, grey with alpha,
/// colour, and colour with alpha. There is no other combination, and no combination twice.
pub proof fn law_samples_of_pixels(color: ColorType, other: ColorType)
    ensures
        color is L8 || color is L16 <==> color.channels() == 1,
        color is La8 || color is La16 <==> color.channels() == 2,
        color is Rgb8 || color is Rgb16 <==> color.channels() == 3,
        color is Rgba8 || color is Rgba16 <==> color.channels() == 4,
        color is L8 || color is La8 || color is Rgb8 || color is Rgba8 <==> !color.is_deep(),
        color.is_deep() ==> color.pixel_bytes() == 2 * color.channels(),
        !color.is_deep() ==> color.pixel_bytes() == color.channels(),
        color.channels() == other.channels() && color.is_deep() == other.is_deep() ==> color
            == other,
{
}

/// An image takes as many bytes as its pixels do. One more row takes as many bytes more as the pixels
/// of a row do, and one more column those of a column.
pub proof fn law_image_bytes(layout: ImageLayout, wider: ImageLayout, higher: ImageLayout)
    requires
        wider == (ImageLayout { width: wider.width, ..layout }),
        wider.width == layout.width + 1,
        higher == (ImageLayout { height: higher.height, ..layout }),
        higher.height == layout.height + 1,
    ensures
        layout.byte_count() == layout.width * (layout.height * layout.color.pixel_bytes()),
        wider.byte_count() == layout.byte_count() + layout.height * layout.color.pixel_bytes(),
        higher.byte_count() == layout.byte_count() + layout.width * layout.color.pixel_bytes(),
        layout.width == 1 && layout.height == 1 ==> layout.byte_count()
            == layout.color.pixel_bytes(),
{
    let w = layout.width as int;
    let h = layout.height as int;
    let p = layout.color.pixel_bytes() as int;
    assert(w * h * p == w * (h * p)) by (nonlinear_arith);
    assert((w + 1) * h * p == w * h * p + h * p) by (nonlinear_arith);
    assert(w * (h + 1) * p == w * h * p + w * p) by (nonlinear_arith);
    if w == 1 && h == 1 {
        assert(w * h * p == p) by (nonlinear_arith)
            requires
                w == 1,
                h == 1,
        ;
    }
}

/// A limit on the width or the height is the greatest size that is accepted. Where there is none,
/// every size is.
pub proof fn law_size_limits(limits: Limits, width: u32, height: u32)
    ensures
        limits.max_image_width is None && limits.max_image_height is None
            ==> limits.allows_dimensions(width, height),
        limits.max_image_width matches Some(w) && w < width ==> !limits.allows_dimensions(
            width,
            height,
        ),
        limits.max_image_height matches Some(h) && h < height ==> !limits.allows_dimensions(
            width,
            height,
        ),
        limits.max_image_width is Some && limits.max_image_height is Some
            ==> limits.allows_dimensions(limits.max_image_width->0, limits.max_image_height->0),
        limits.max_image_width is Some && limits.max_image_height is None
            ==> limits.allows_dimensions(limits.max_image_width->0, height),
        limits.max_image_width is None && limits.max_image_height is Some
            ==> limits.allows_dimensions(width, limits.max_image_height->0),
{
}

/// What is accepted stays accepted where it becomes smaller.
pub proof fn law_smaller_is_accepted(
    limits: Limits,
    width: u32,
    height: u32,
    less_width: u32,
    less_height: u32,
)
    requires
        limits.allows_dimensions(width, height),
        less_width <= width,
        less_height <= height,
    ensures
        limits.allows_dimensions(less_width, less_height),
{
}

/// Allocating in two portions is allowed if, and only if, allocating all at once is. The whole of
/// what is left may be allocated, but no more.
pub proof fn law_allocations_add_up(limits: Limits, a: nat, b: nat)
    ensures
        limits.allows_alloc(a) && limits.after_reserve(a).allows_alloc(b) <==> limits.allows_alloc(
            a + b,
        ),
        limits.max_alloc matches Some(max) ==> limits.allows_alloc(max as nat)
            && !limits.allows_alloc(max as nat + 1),
        limits.max_alloc is None ==> limits.allows_alloc(a),
        limits.after_reserve(a).max_image_width == limits.max_image_width,
        limits.after_reserve(a).max_image_height == limits.max_image_height,
{
}

/// The two bytes of a sample make up the sample again: the first one counts 256 times as much as the
/// second one where the more significant byte comes first, and else the other way round.
pub proof fn law_sample_bytes(v: u16)
    ensures
        super::sample_byte(ByteOrder::Big, v, 0) * 256 + super::sample_byte(ByteOrder::Big, v, 1)
            == v,
        super::sample_byte(ByteOrder::Little, v, 0) + super::sample_byte(ByteOrder::Little, v, 1)
            * 256 == v,
{
}

/// A format without metadata holds a single image, and none of the kinds of metadata.
pub proof fn law_plain_images(hint: DecodedMetadataHint)
    ensures
        ({
            let a = super::plain_attributes();
            &&& !a.is_animated && !a.is_sequence
            &&& a.icc == hint || a.exif == hint || a.xmp == hint || a.iptc == hint ==> hint is Absent
        }),
{
}

} // verus!
