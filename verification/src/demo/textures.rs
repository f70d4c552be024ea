//! Procedural textures for tiles and buildings.
//!
//! Shapes and shades come from single-precision numbers, rounding included.

use vstd::arithmetic::power2::pow2;
use vstd::prelude::*;

use crate::demo::single::{
    added, apart, as_byte, at_most, byte_of, divided, gap, half, halved, in_units, is_at_most,
    law_distance_to_half_is_exact, law_gap_is_rounded_once, law_integers_are_exact,
    law_integers_calculate, law_product_is_rounded_once, law_quotient_is_rounded_once,
    law_sum_is_rounded_once, law_sum_with_half_is_exact, lower, multiplied, normal, of_int,
    product, quotient, rounded, rounded_down_to_bits, rounded_up_to_bits, single_of, sum, Single,
};

verus! {

/// Colour of a pixel.
#[derive(Clone, Copy, Debug, PartialEq, Eq, Structural)]
pub struct Rgb {
    pub r: u8,
    pub g: u8,
    pub b: u8,
}

/// Channel `k` of a pixel: opaque in its colour, or transparent.
pub open spec fn channel(color: Option<Rgb>, k: int) -> u8 {
    match color {
        Some(c) => if k == 0 {
            c.r
        } else if k == 1 {
            c.g
        } else if k == 2 {
            c.b
        } else {
            255
        },
        None => 0,
    }
}

/// The RGBA bytes of an image whose pixel `(x, y)` is `color(x, y)`.
pub open spec fn rgba_of(
    width: nat,
    height: nat,
    color: spec_fn(int, int) -> Option<Rgb>,
) -> Seq<u8> {
    Seq::new(
        width * height * 4,
        |i: int| channel(color((i / 4) % width as int, (i / 4) / width as int), i % 4),
    )
}

/// The middle of `0..n`, half the number of the last one.
pub open spec fn middle(n: int) -> Single {
    half(of_int(n - 1))
}

/// How far `at` lies from `centre`, as a part of `extent`.
pub open spec fn offset_ratio(at: int, centre: Single, extent: Single) -> Single {
    quotient(gap(of_int(at), centre), extent)
}

/// Weight of a pixel in the diamond that fills a `w` by `h` image: zero in the
/// middle, one on the edge.
pub open spec fn tile_weight(x: int, y: int, w: int, h: int) -> Single {
    sum(offset_ratio(x, middle(w), middle(w)), offset_ratio(y, middle(h), middle(h)))
}

/// 1.0
pub open spec fn one() -> Single {
    Single { m: 0x80_0000, e: -23 as i32 }
}

/// 0.94: where the outline of a tile begins.
pub open spec fn tile_outline_from() -> Single {
    Single { m: 0xf0_a3d7, e: -24 as i32 }
}

/// 0.92: where the outline of a building's base begins.
pub open spec fn base_outline_from() -> Single {
    Single { m: 0xeb_851f, e: -24 as i32 }
}

/// Brightness of row `y` of a tile of `h` rows: from 0.85 at the top down to 0.55.
pub open spec fn tile_brightness(y: int, h: int) -> Single {
    let lo = Single { m: 0x8c_cccd, e: -24 as i32 };
    let hi = Single { m: 0xd9_999a, e: -24 as i32 };
    sum(lo, product(gap(hi, lo), gap(one(), quotient(of_int(y), of_int(h)))))
}

/// Brightness of row `y` of a building of `height` rows: 0.7, and more with each
/// row.
pub open spec fn body_brightness(y: int, height: int) -> Single {
    sum(
        Single { m: 0xb3_3333, e: -24 as i32 },
        product(Single { m: 0x99_999a, e: -25 as i32 }, quotient(of_int(y), of_int(height))),
    )
}

/// A colour at the given brightness.
pub open spec fn shaded(r: int, g: int, b: int, brightness: Single) -> Rgb {
    Rgb {
        r: as_byte(product(of_int(r), brightness)),
        g: as_byte(product(of_int(g), brightness)),
        b: as_byte(product(of_int(b), brightness)),
    }
}

/// Outline of a tile.
pub open spec fn tile_outline() -> Rgb {
    Rgb { r: 32, g: 24, b: 16 }
}

/// A tile: a diamond that darkens from row to row, with an outline. An image of
/// one row or column has no inside: there the weight is no number.
pub open spec fn tile_color(x: int, y: int, w: int, h: int) -> Option<Rgb> {
    let weight = tile_weight(x, y, w, h);
    if w == 1 || h == 1 || !at_most(weight, one()) {
        None
    } else if !at_most(weight, tile_outline_from()) {
        Some(tile_outline())
    } else {
        Some(shaded(110, 165, 95, tile_brightness(y, h)))
    }
}

/// Outline and fill of a building's base.
pub open spec fn base_outline() -> Rgb {
    Rgb { r: 40, g: 30, b: 20 }
}

pub open spec fn base_fill() -> Rgb {
    Rgb { r: 200, g: 160, b: 110 }
}

/// Weight of a pixel in the base of a building, a diamond of `w` by `h` pixels
/// below `extra` rows.
pub open spec fn base_weight(x: int, y: int, w: int, h: int, extra: int) -> Single {
    sum(
        offset_ratio(x, middle(w), middle(w)),
        offset_ratio(y, sum(of_int(extra), middle(h)), middle(h)),
    )
}

/// Half the width of a building's body in row `y`: it widens from the top.
pub open spec fn body_reach(y: int, w: int, extra: int) -> Single {
    product(middle(w), quotient(of_int(y), of_int(extra)))
}

/// A building: a diamond base of `w` by `h` pixels, and above it a body of
/// `extra` rows.
pub open spec fn building_color(x: int, y: int, w: int, h: int, extra: int) -> Option<Rgb> {
    if !at_most(of_int(extra), of_int(y)) {
        if at_most(gap(of_int(x), middle(w)), body_reach(y, w, extra)) {
            Some(shaded(180, 130, 90, body_brightness(y, h + extra)))
        } else {
            None
        }
    } else {
        let weight = base_weight(x, y, w, h, extra);
        if !at_most(weight, one()) {
            None
        } else if !at_most(weight, base_outline_from()) {
            Some(base_outline())
        } else {
            Some(base_fill())
        }
    }
}

/// Appends a pixel.
pub fn push_pixel(rgba: &mut Vec<u8>, color: Option<Rgb>)
    ensures
        final(rgba)@ == old(rgba)@ + seq![
            channel(color, 0),
            channel(color, 1),
            channel(color, 2),
            channel(color, 3),
        ],
{
    match color {
        Some(c) => {
            rgba.push(c.r);
            rgba.push(c.g);
            rgba.push(c.b);
            rgba.push(255);
        },
        None => {
            rgba.push(0);
            rgba.push(0);
            rgba.push(0);
            rgba.push(0);
        },
    }
    assert(rgba@ =~= old(rgba)@ + seq![
        channel(color, 0),
        channel(color, 1),
        channel(color, 2),
        channel(color, 3),
    ]);
}

/// The first `pixels` pixels of an image are in place.
pub open spec fn filled_to(rgba: Seq<u8>, whole: Seq<u8>, pixels: int) -> bool {
    &&& rgba.len() == 4 * pixels
    &&& rgba.len() <= whole.len()
    &&& forall|i: int| 0 <= i < rgba.len() ==> #[trigger] rgba[i] == whole[i]
}

/// One more pixel in place.
pub proof fn lemma_pixel_in_place(
    before: Seq<u8>,
    after: Seq<u8>,
    width: nat,
    height: nat,
    color: spec_fn(int, int) -> Option<Rgb>,
    x: int,
    y: int,
)
    requires
        0 <= x < width,
        0 <= y < height,
        filled_to(before, rgba_of(width, height, color), y * width + x),
        after == before + seq![
            channel(color(x, y), 0),
            channel(color(x, y), 1),
            channel(color(x, y), 2),
            channel(color(x, y), 3),
        ],
    ensures
        filled_to(after, rgba_of(width, height, color), y * width + x + 1),
{
    let whole = rgba_of(width, height, color);
    let p = y * width + x;
    assert(p + 1 <= width * height) by (nonlinear_arith)
        requires
            p == y * width + x,
            0 <= x < width,
            0 <= y < height,
    ;
    vstd::arithmetic::div_mod::lemma_fundamental_div_mod_converse(p, width as int, y, x);
    assert forall|i: int| 0 <= i < after.len() implies #[trigger] after[i] == whole[i] by {
        if i >= before.len() {
            assert(i / 4 == p);
            assert(i % 4 == i - before.len());
        } else {
            assert(after[i] == before[i]);
        }
    }
}

/// The exponent is small enough for further operations.
spec fn between(s: Single, lo: int, hi: int) -> bool {
    normal(s) && lo <= s.e <= hi
}

fn middle_of(n: u32) -> (c: Single)
    requires
        n > 0,
    ensures
        c == middle(n as int),
        between(c, -24, 8),
        n > 1 ==> c.m > 0,
{
    halved(single_of(n - 1))
}

fn offset_ratio_of(at: u32, centre: Single, extent: Single) -> (r: Single)
    requires
        between(centre, -24, 10),
        between(extent, -24, 8),
        extent.m > 0,
    ensures
        r == offset_ratio(at as int, centre, extent),
        between(r, -79, 13),
{
    divided(apart(single_of(at), centre), extent)
}

fn exceeds(weight: Single, limit: Single) -> (yes: bool)
    requires
        between(weight, -79, 15),
        between(limit, -25, 0),
    ensures
        yes <==> !at_most(weight, limit),
{
    !is_at_most(weight, limit)
}

fn shade_of(r: u32, g: u32, b: u32, brightness: Single) -> (color: Rgb)
    requires
        between(brightness, -103, 12),
    ensures
        color == shaded(r as int, g as int, b as int, brightness),
{
    Rgb {
        r: byte_of(multiplied(single_of(r), brightness)),
        g: byte_of(multiplied(single_of(g), brightness)),
        b: byte_of(multiplied(single_of(b), brightness)),
    }
}

fn tile_shade(y: u32, h: u32) -> (color: Rgb)
    requires
        h > 0,
    ensures
        color == shaded(110, 165, 95, tile_brightness(y as int, h as int)),
{
    let lo: Single = Single { m: 0x8c_cccd, e: -24 };
    let hi: Single = Single { m: 0xd9_999a, e: -24 };
    let t: Single = divided(single_of(y), single_of(h));
    let range: Single = apart(hi, lo);
    assert(range == (Single { m: 0x99_999a, e: -25 as i32 })) by {
        vstd::arithmetic::power2::lemma2_to64();
        reveal_with_fuel(rounded_up_to_bits, 3);
        assert(in_units(hi, -24) == 0xd9_999a && in_units(lo, -24) == 0x8c_cccd);
    }
    let rest: Single = apart(Single { m: 0x80_0000, e: -23 }, t);
    shade_of(110, 165, 95, added(lo, multiplied(range, rest)))
}

fn body_shade(y: u32, height: u32) -> (color: Rgb)
    requires
        height > 0,
    ensures
        color == shaded(180, 130, 90, body_brightness(y as int, height as int)),
{
    let t: Single = divided(single_of(y), single_of(height));
    let brightness: Single = added(
        Single { m: 0xb3_3333, e: -24 },
        multiplied(Single { m: 0x99_999a, e: -25 }, t),
    );
    shade_of(180, 130, 90, brightness)
}

fn tile_pixel(x: u32, y: u32, w: u32, h: u32) -> (pixel: Option<Rgb>)
    requires
        w > 0,
        h > 0,
    ensures
        pixel == tile_color(x as int, y as int, w as int, h as int),
{
    if w == 1 || h == 1 {
        return None;
    }
    let cx: Single = middle_of(w);
    let cy: Single = middle_of(h);
    let weight: Single = added(offset_ratio_of(x, cx, cx), offset_ratio_of(y, cy, cy));
    if exceeds(weight, Single { m: 0x80_0000, e: -23 }) {
        None
    } else if exceeds(weight, Single { m: 0xf0_a3d7, e: -24 }) {
        Some(Rgb { r: 32, g: 24, b: 16 })
    } else {
        Some(tile_shade(y, h))
    }
}

fn building_pixel(x: u32, y: u32, w: u32, h: u32, extra: u32) -> (pixel: Option<Rgb>)
    requires
        w > 1,
        h > 1,
        h + extra <= u32::MAX,
    ensures
        pixel == building_color(x as int, y as int, w as int, h as int, extra as int),
{
    let row: Single = single_of(y);
    let top: Single = single_of(extra);
    let cx: Single = middle_of(w);
    if !is_at_most(top, row) {
        assert(top.m > 0) by {
            if top.m == 0 {
                assert(in_units(top, lower(top, row)) == 0) by (nonlinear_arith)
                    requires
                        top.m == 0,
                        in_units(top, lower(top, row)) == top.m * pow2(
                            (top.e - lower(top, row)) as nat,
                        ),
                ;
                assert(in_units(row, lower(top, row)) >= 0) by (nonlinear_arith)
                    requires
                        row.m >= 0,
                        in_units(row, lower(top, row)) == row.m * pow2(
                            (row.e - lower(top, row)) as nat,
                        ),
                ;
            }
        }
        let reach: Single = multiplied(cx, divided(row, top));
        if is_at_most(apart(single_of(x), cx), reach) {
            Some(body_shade(y, h + extra))
        } else {
            None
        }
    } else {
        let half_h: Single = middle_of(h);
        let weight: Single = added(
            offset_ratio_of(x, cx, cx),
            offset_ratio_of(y, added(top, half_h), half_h),
        );
        if exceeds(weight, Single { m: 0x80_0000, e: -23 }) {
            None
        } else if exceeds(weight, Single { m: 0xeb_851f, e: -24 }) {
            Some(Rgb { r: 40, g: 30, b: 20 })
        } else {
            Some(Rgb { r: 200, g: 160, b: 110 })
        }
    }
}

/// The tile texture.
pub fn build_diamond_rgba(tile_w: u32, tile_h: u32) -> (rgba: Vec<u8>)
    requires
        tile_w > 0,
        tile_h > 0,
        tile_w * tile_h * 4 <= u32::MAX,
    ensures
        rgba@ == rgba_of(
            tile_w as nat,
            tile_h as nat,
            |x: int, y: int| tile_color(x, y, tile_w as int, tile_h as int),
        ),
{
    let ghost color = |x: int, y: int| tile_color(x, y, tile_w as int, tile_h as int);
    let ghost whole = rgba_of(tile_w as nat, tile_h as nat, color);
    let mut rgba: Vec<u8> = Vec::new();
    let mut y: u32 = 0;
    while y < tile_h
        invariant
            tile_w > 0,
            tile_h > 0,
            color == (|x: int, y: int| tile_color(x, y, tile_w as int, tile_h as int)),
            whole == rgba_of(tile_w as nat, tile_h as nat, color),
            y <= tile_h,
            filled_to(rgba@, whole, y * tile_w),
        decreases tile_h - y,
    {
        let mut x: u32 = 0;
        while x < tile_w
            invariant
                tile_w > 0,
                tile_h > 0,
                color == (|x: int, y: int| tile_color(x, y, tile_w as int, tile_h as int)),
                whole == rgba_of(tile_w as nat, tile_h as nat, color),
                y < tile_h,
                x <= tile_w,
                filled_to(rgba@, whole, y * tile_w + x),
            decreases tile_w - x,
        {
            let pixel: Option<Rgb> = tile_pixel(x, y, tile_w, tile_h);
            let ghost before = rgba@;
            push_pixel(&mut rgba, pixel);
            proof {
                assert(pixel == color(x as int, y as int));
                lemma_pixel_in_place(
                    before,
                    rgba@,
                    tile_w as nat,
                    tile_h as nat,
                    color,
                    x as int,
                    y as int,
                );
            }
            x += 1;
        }
        assert(y * tile_w + tile_w == (y + 1) * tile_w) by (nonlinear_arith);
        y += 1;
    }
    assert(tile_h * tile_w == tile_w * tile_h) by (nonlinear_arith);
    assert(rgba@ =~= whole);
    rgba
}

/// The building texture: width, height and pixels.
pub fn build_building_rgba(tile_w: u32, tile_h: u32, body_extra: u32) -> (built: (
    u32,
    u32,
    Vec<u8>,
))
    requires
        tile_w > 0,
        tile_h > 0,
        (2 * tile_w) * (2 * tile_h + body_extra) * 4 <= u32::MAX,
        2 * tile_h + body_extra <= u32::MAX,
    ensures
        built.0 == 2 * tile_w,
        built.1 == 2 * tile_h + body_extra,
        built.2@ == rgba_of(
            (2 * tile_w) as nat,
            (2 * tile_h + body_extra) as nat,
            |x: int, y: int|
                building_color(x, y, 2 * tile_w as int, 2 * tile_h as int, body_extra as int),
        ),
{
    assert(2 * tile_w <= u32::MAX) by (nonlinear_arith)
        requires
            tile_w > 0,
            tile_h > 0,
            body_extra >= 0,
            (2 * tile_w) * (2 * tile_h + body_extra) * 4 <= u32::MAX,
    ;
    let base_w: u32 = 2 * tile_w;
    let base_h: u32 = 2 * tile_h;
    let height: u32 = base_h + body_extra;
    let ghost color = |x: int, y: int|
        building_color(x, y, base_w as int, base_h as int, body_extra as int);
    let ghost whole = rgba_of(base_w as nat, height as nat, color);
    let mut rgba: Vec<u8> = Vec::new();
    let mut y: u32 = 0;
    while y < height
        invariant
            base_w > 1,
            base_h > 1,
            height == base_h + body_extra,
            color == (|x: int, y: int|
                building_color(x, y, base_w as int, base_h as int, body_extra as int)),
            whole == rgba_of(base_w as nat, height as nat, color),
            y <= height,
            filled_to(rgba@, whole, y * base_w),
        decreases height - y,
    {
        let mut x: u32 = 0;
        while x < base_w
            invariant
                base_w > 1,
                base_h > 1,
                height == base_h + body_extra,
                color == (|x: int, y: int|
                    building_color(x, y, base_w as int, base_h as int, body_extra as int)),
                whole == rgba_of(base_w as nat, height as nat, color),
                y < height,
                x <= base_w,
                filled_to(rgba@, whole, y * base_w + x),
            decreases base_w - x,
        {
            let pixel: Option<Rgb> = building_pixel(x, y, base_w, base_h, body_extra);
            let ghost before = rgba@;
            push_pixel(&mut rgba, pixel);
            proof {
                assert(pixel == color(x as int, y as int));
                lemma_pixel_in_place(
                    before,
                    rgba@,
                    base_w as nat,
                    height as nat,
                    color,
                    x as int,
                    y as int,
                );
            }
            x += 1;
        }
        assert(y * base_w + base_w == (y + 1) * base_w) by (nonlinear_arith);
        y += 1;
    }
    assert(height * base_w == base_w * height) by (nonlinear_arith);
    assert(rgba@ =~= whole);
    (base_w, height, rgba)
}

/// A tile looks the same from left and right and, but for its shades, from top
/// and bottom. Its sides have at most 2^24 pixels, so that the middle is exact.
pub proof fn law_tile_is_symmetric(x: int, y: int, w: int, h: int)
    requires
        0 <= x < w <= 0x100_0000,
        0 <= y < h <= 0x100_0000,
    ensures
        tile_color(w - 1 - x, y, w, h) == tile_color(x, y, w, h),
        tile_color(x, h - 1 - y, w, h) is Some <==> tile_color(x, y, w, h) is Some,
{
    if w > 1 && h > 1 {
        law_distance_to_half_is_exact(x, w - 1);
        law_distance_to_half_is_exact(w - 1 - x, w - 1);
        law_distance_to_half_is_exact(y, h - 1);
        law_distance_to_half_is_exact(h - 1 - y, h - 1);
    }
}

/// A pixel is opaque, or it is cut out and leaves no colour behind.
pub proof fn law_pixels_are_opaque_or_cut_out(color: Option<Rgb>, k: int)
    ensures
        channel(color, 3) == 255 || channel(color, 3) == 0,
        channel(color, 3) == 0 && 0 <= k < 4 ==> channel(color, k) == 0,
{
}

/// An image is its pixels row by row from the top, four bytes each: red, green, blue
/// and alpha, which is 255 where there is a pixel; where there is none, all are zero.
pub proof fn law_image_is_row_by_row(
    width: nat,
    height: nat,
    color: spec_fn(int, int) -> Option<Rgb>,
    x: int,
    y: int,
)
    requires
        0 <= x < width,
        0 <= y < height,
    ensures
        ({
            let rgba = rgba_of(width, height, color);
            let at = 4 * (y * width + x);
            &&& rgba.len() == 4 * (width * height)
            &&& 0 <= at
            &&& at + 4 <= rgba.len()
            &&& color(x, y) matches Some(c) ==> rgba[at] == c.r && rgba[at + 1] == c.g && rgba[at
                + 2] == c.b && rgba[at + 3] == 255
            &&& color(x, y) is None ==> rgba[at] == 0 && rgba[at + 1] == 0 && rgba[at + 2] == 0
                && rgba[at + 3] == 0
        }),
{
    let p = y * width + x;
    let at = 4 * p;
    assert(0 <= p && p < width * height) by (nonlinear_arith)
        requires
            0 <= x < width,
            0 <= y < height,
            p == y * width + x,
    ;
    vstd::arithmetic::div_mod::lemma_fundamental_div_mod_converse(p, width as int, y, x);
    assert(at / 4 == p && (at + 1) / 4 == p && (at + 2) / 4 == p && (at + 3) / 4 == p);
    assert(at % 4 == 0 && (at + 1) % 4 == 1 && (at + 2) % 4 == 2 && (at + 3) % 4 == 3);
}

/// A colour at brightness one is itself, and each channel goes by itself alone.
pub proof fn law_shade_goes_channel_by_channel(
    r: int,
    g: int,
    b: int,
    r2: int,
    g2: int,
    b2: int,
    brightness: Single,
)
    requires
        0 <= r < 256,
        0 <= g < 256,
        0 <= b < 256,
    ensures
        shaded(r, g, b, Single { m: 0x80_0000, e: -23 as i32 }) == (Rgb {
            r: r as u8,
            g: g as u8,
            b: b as u8,
        }),
        shaded(r, g2, b2, brightness).r == shaded(r, g, b, brightness).r,
        shaded(r2, g, b2, brightness).g == shaded(r, g, b, brightness).g,
        shaded(r2, g2, b, brightness).b == shaded(r, g, b, brightness).b,
        shaded(r, r, r, brightness).g == shaded(r, g, b, brightness).r,
        shaded(r, r, r, brightness).b == shaded(r, g, b, brightness).r,
{
    lemma_channel_at_one(r);
    lemma_channel_at_one(g);
    lemma_channel_at_one(b);
}

proof fn lemma_channel_at_one(c: int)
    requires
        0 <= c < 256,
    ensures
        as_byte(product(of_int(c), Single { m: 0x80_0000, e: -23 as i32 })) == c,
{
    law_integers_calculate(c, 0);
    if c > 0 {
        law_integers_are_exact(c);
        law_product_is_rounded_once(of_int(c), one(), 0);
    } else {
        assert(of_int(0).m * 0x80_0000 == 0);
    }
}

/// How far a row or column lies from the middle, in parts of half the image: twice
/// the distance and twice the half are integers, so only the quotient is rounded.
/// It is one at both ends and zero in the middle.
pub proof fn law_offset_is_distance_from_middle(at: int, n: int)
    requires
        0 <= at < n,
        1 < n <= 0x100_0000,
    ensures
        ({
            let last = n - 1;
            let distance = if 2 * at >= last {
                2 * at - last
            } else {
                last - 2 * at
            };
            &&& offset_ratio(at, middle(n), middle(n)) == quotient(
                rounded(distance, 1, -1),
                rounded(last, 1, -1),
            )
            &&& at == 0 || at == last ==> offset_ratio(at, middle(n), middle(n)) == (Single {
                m: 0x80_0000,
                e: -23 as i32,
            })
            &&& 2 * at == last ==> offset_ratio(at, middle(n), middle(n)) == (Single {
                m: 0,
                e: 0,
            })
        }),
{
    let last = n - 1;
    law_distance_to_half_is_exact(at, last);
    law_sum_with_half_is_exact(0, last);
    law_integers_are_exact(last);
    law_quotient_is_rounded_once(middle(n), middle(n), 0);
}

/// A tile is cut out where its weight is above 1, outlined in (32, 24, 16) where it is
/// above 0.94, and filled elsewhere with (110, 165, 95) at the brightness of its row.
pub proof fn law_tile_is_outlined_and_filled(x: int, y: int, w: int, h: int)
    requires
        w > 1,
        h > 1,
    ensures
        ({
            let weight = sum(
                offset_ratio(x, middle(w), middle(w)),
                offset_ratio(y, middle(h), middle(h)),
            );
            let in_tile = at_most(weight, Single { m: 0x80_0000, e: -23 as i32 });
            let inside = at_most(weight, Single { m: 0xf0_a3d7, e: -24 as i32 });
            &&& tile_color(x, y, w, h) is Some <==> in_tile
            &&& in_tile && !inside ==> tile_color(x, y, w, h) == Some(Rgb { r: 32, g: 24, b: 16 })
            &&& in_tile && inside ==> tile_color(x, y, w, h) == Some(
                shaded(110, 165, 95, tile_brightness(y, h)),
            )
        }),
{
}

/// The four corners of a tile's picture are cut out.
pub proof fn law_tile_has_no_corners(x: int, y: int, w: int, h: int)
    requires
        1 < w <= 0x100_0000,
        1 < h <= 0x100_0000,
        x == 0 || x == w - 1,
        y == 0 || y == h - 1,
    ensures
        tile_color(x, y, w, h) is None,
{
    law_offset_is_distance_from_middle(x, w);
    law_offset_is_distance_from_middle(y, h);
    vstd::arithmetic::power2::lemma2_to64();
    let a = one();
    let two = Single { m: 0x80_0000, e: -22 as i32 };
    law_sum_is_rounded_once(a, a, -23);
    assert(a.m * pow2(0) == 0x80_0000);
    reveal_with_fuel(rounded_down_to_bits, 3);
    assert(sum(a, a) == two);
    law_gap_is_rounded_once(two, a, -23);
    assert(two.m * pow2(1) == 0x100_0000);
}

/// The middle of a tile is filled, and its four tips are outlined, where the picture
/// has a middle row or column at all.
pub proof fn law_tile_has_tips(x: int, y: int, w: int, h: int)
    requires
        0 <= x < w,
        0 <= y < h,
        1 < w <= 0x100_0000,
        1 < h <= 0x100_0000,
    ensures
        2 * x == w - 1 && 2 * y == h - 1 ==> tile_color(x, y, w, h) == Some(
            shaded(110, 165, 95, tile_brightness(y, h)),
        ),
        (x == 0 || x == w - 1) && 2 * y == h - 1 ==> tile_color(x, y, w, h) == Some(
            Rgb { r: 32, g: 24, b: 16 },
        ),
        2 * x == w - 1 && (y == 0 || y == h - 1) ==> tile_color(x, y, w, h) == Some(
            Rgb { r: 32, g: 24, b: 16 },
        ),
{
    law_offset_is_distance_from_middle(x, w);
    law_offset_is_distance_from_middle(y, h);
    vstd::arithmetic::power2::lemma2_to64();
    let a = one();
    let zero = Single { m: 0, e: 0 };
    law_sum_is_rounded_once(a, zero, -23);
    law_sum_is_rounded_once(zero, a, -23);
    law_sum_is_rounded_once(zero, zero, 0);
    assert(a.m * pow2(0) == 0x80_0000 && zero.m * pow2(23) == 0 && zero.m * pow2(0) == 0);
    assert(0x80_0000int / 1 == 0x80_0000 && 0x80_0000int % 1 == 0);
    assert(sum(a, zero) == a && sum(zero, a) == a && sum(zero, zero) == zero);
    law_gap_is_rounded_once(a, a, -23);
    law_gap_is_rounded_once(zero, a, -23);
    let outline = tile_outline_from();
    law_gap_is_rounded_once(a, outline, -24);
    law_gap_is_rounded_once(zero, outline, -24);
    assert(a.m * pow2(1) == 0x100_0000 && outline.m * pow2(0) == 0xf0_a3d7 && zero.m * pow2(24)
        == 0);
}

/// A tile darkens from 0.85 in its top row towards 0.55 below its last one.
pub proof fn law_tile_darkens_downwards(h: int)
    requires
        0 < h < 0x100_0000,
    ensures
        tile_brightness(0, h) == (Single { m: 0xd9_999a, e: -24 as i32 }),
        tile_brightness(h, h) == (Single { m: 0x8c_cccd, e: -24 as i32 }),
{
    vstd::arithmetic::power2::lemma2_to64();
    reveal_with_fuel(rounded_up_to_bits, 3);
    reveal_with_fuel(rounded_down_to_bits, 3);
    let lo = Single { m: 0x8c_cccd, e: -24 as i32 };
    let hi = Single { m: 0xd9_999a, e: -24 as i32 };
    let zero = Single { m: 0, e: 0 };
    let range = Single { m: 0x99_999a, e: -25 as i32 };
    assert(gap(hi, lo) == range) by {
        assert(in_units(hi, -24) == 0xd9_999a && in_units(lo, -24) == 0x8c_cccd);
    }
    law_integers_are_exact(h);
    law_quotient_is_rounded_once(of_int(h), of_int(h), 0);
    law_gap_is_rounded_once(one(), zero, -23);
    law_gap_is_rounded_once(one(), one(), -23);
    assert(one().m * pow2(0) == 0x80_0000 && zero.m * pow2(23) == 0);
    assert(0x80_0000int / 1 == 0x80_0000 && 0x80_0000int % 1 == 0);
    assert(gap(one(), zero) == one() && gap(one(), one()) == zero);
    law_product_is_rounded_once(range, one(), 0);
    law_sum_is_rounded_once(lo, range, -25);
    assert(lo.m * pow2(1) == 0x119_999a && range.m * pow2(0) == 0x99_999a);
    assert(sum(lo, range) == hi);
    law_sum_is_rounded_once(lo, zero, -24);
    assert(lo.m * pow2(0) == 0x8c_cccd && zero.m * pow2(24) == 0);
    assert(0x8c_cccdint / 1 == 0x8c_cccd && 0x8c_cccdint % 1 == 0);
    assert(sum(lo, zero) == lo);
}

/// A building brightens from 0.7 in its top row towards 1 below its last one.
pub proof fn law_body_brightens_downwards(height: int)
    requires
        0 < height < 0x100_0000,
    ensures
        body_brightness(0, height) == (Single { m: 0xb3_3333, e: -24 as i32 }),
        body_brightness(height, height) == (Single { m: 0x80_0000, e: -23 as i32 }),
{
    vstd::arithmetic::power2::lemma2_to64();
    reveal_with_fuel(rounded_up_to_bits, 3);
    reveal_with_fuel(rounded_down_to_bits, 4);
    let base = Single { m: 0xb3_3333, e: -24 as i32 };
    let range = Single { m: 0x99_999a, e: -25 as i32 };
    let zero = Single { m: 0, e: 0 };
    law_integers_are_exact(height);
    law_quotient_is_rounded_once(of_int(height), of_int(height), 0);
    law_product_is_rounded_once(range, zero, 0);
    law_sum_is_rounded_once(base, zero, -24);
    assert(base.m * pow2(0) == 0xb3_3333 && zero.m * pow2(24) == 0);
    assert(0xb3_3333int / 1 == 0xb3_3333 && 0xb3_3333int % 1 == 0);
    assert(sum(base, zero) == base);
    law_sum_is_rounded_once(base, range, -25);
    assert(base.m * pow2(1) == 0x166_6666 && range.m * pow2(0) == 0x99_999a);
    assert(sum(base, range) == one());
}

/// The body of a building begins in a point at the top and is as wide as the base
/// where it meets it.
pub proof fn law_body_widens_from_a_point(w: int, extra: int)
    requires
        1 < w <= 0x100_0000,
        0 < extra < 0x100_0000,
    ensures
        body_reach(0, w, extra) == (Single { m: 0, e: 0 }),
        body_reach(extra, w, extra) == middle(w),
{
    law_integers_are_exact(extra);
    law_integers_are_exact(w - 1);
    law_quotient_is_rounded_once(of_int(extra), of_int(extra), 0);
    law_product_is_rounded_once(middle(w), of_int(0), 0);
}

/// The rows above the base are the body, (180, 130, 90) at the brightness of the row,
/// as far as it reaches to either side of the middle; the others are the base.
pub proof fn law_body_stands_above_base(x: int, y: int, w: int, h: int, extra: int)
    requires
        0 <= y < 0x100_0000,
        0 <= extra < 0x100_0000,
    ensures
        ({
            let color = building_color(x, y, w, h, extra);
            let reached = at_most(gap(of_int(x), middle(w)), body_reach(y, w, extra));
            let weight = base_weight(x, y, w, h, extra);
            let in_base = at_most(weight, Single { m: 0x80_0000, e: -23 as i32 });
            let inside = at_most(weight, Single { m: 0xeb_851f, e: -24 as i32 });
            &&& y < extra ==> {
                &&& color is Some <==> reached
                &&& reached ==> color == Some(
                    shaded(180, 130, 90, body_brightness(y, h + extra)),
                )
            }
            &&& y >= extra ==> {
                &&& color is Some <==> in_base
                &&& in_base && !inside ==> color == Some(Rgb { r: 40, g: 30, b: 20 })
                &&& in_base && inside ==> color == Some(Rgb { r: 200, g: 160, b: 110 })
            }
        }),
{
    law_integers_calculate(extra, y);
}

/// The base of a building is a tile's diamond, moved down below the body: row `y` of
/// the one weighs what row `extra + y` of the other does.
pub proof fn law_base_is_a_tile_moved_down(x: int, y: int, w: int, h: int, extra: int)
    requires
        0 <= y < h,
        1 < h,
        0 <= extra,
        2 * extra + 2 * h < 0x100_0000,
    ensures
        base_weight(x, extra + y, w, h, extra) == tile_weight(x, y, w, h),
{
    let last = h - 1;
    law_sum_with_half_is_exact(extra, last);
    law_distance_to_half_is_exact(extra + y, 2 * extra + last);
    law_distance_to_half_is_exact(y, last);
}

/// Between its ends, a tile's brightness falls in step with the rows: 0.55, and 0.3
/// times the part of the rows that is still below. A building's rises in step: 0.7,
/// and 0.3 times the part of the rows that is already above. So does the reach of its
/// body: half the width times the part of the rows above.
pub proof fn law_shades_and_reach_go_by_rows(y: int, h: int, w: int)
    requires
        1 < w <= 0x100_0000,
    ensures
        ({
            let above = quotient(of_int(y), of_int(h));
            let below = gap(Single { m: 0x80_0000, e: -23 as i32 }, above);
            let three_tenths = Single { m: 0x99_999a, e: -25 as i32 };
            &&& tile_brightness(y, h) == sum(
                Single { m: 0x8c_cccd, e: -24 as i32 },
                product(three_tenths, below),
            )
            &&& body_brightness(y, h) == sum(
                Single { m: 0xb3_3333, e: -24 as i32 },
                product(three_tenths, above),
            )
            &&& body_reach(y, w, h) == product(rounded(w - 1, 1, -1), above)
        }),
{
    vstd::arithmetic::power2::lemma2_to64();
    reveal_with_fuel(rounded_up_to_bits, 3);
    let lo = Single { m: 0x8c_cccd, e: -24 as i32 };
    let hi = Single { m: 0xd9_999a, e: -24 as i32 };
    assert(in_units(hi, -24) == 0xd9_999a && in_units(lo, -24) == 0x8c_cccd);
    law_sum_with_half_is_exact(0, w - 1);
}

/// The weight of a pixel is the sum over both axes of its distance from the middle,
/// each as a part of half the extent. The middle of `0..n` is half of `n - 1`; the middle
/// row of a building's base lies below its body.
pub proof fn law_weights_add_up_over_axes(x: int, y: int, w: int, h: int, extra: int)
    ensures
        ({
            let across = half(of_int(w - 1));
            let down = half(of_int(h - 1));
            let below = sum(of_int(extra), down);
            &&& middle(w) == across
            &&& tile_weight(x, y, w, h) == sum(
                quotient(gap(of_int(x), across), across),
                quotient(gap(of_int(y), down), down),
            )
            &&& base_weight(x, y, w, h, extra) == sum(
                quotient(gap(of_int(x), across), across),
                quotient(gap(of_int(y), below), down),
            )
        }),
{
}

} // verus!
