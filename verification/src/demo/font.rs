//! A bitmap font of 16 glyphs for the on-screen counter.
//!
//! The atlas is one horizontal strip of glyphs, five pixels wide and seven
//! high.

use vstd::prelude::*;

verus! {

pub const GLYPH_W: u32 = 5;

pub const GLYPH_H: u32 = 7;

/// Glyphs in the atlas.
pub const GLYPHS: u32 = 16;

pub const ATLAS_W: u32 = 80;

pub const ATLAS_H: u32 = 7;

/// The glyph of a character; the letters have one glyph for both cases.
pub open spec fn glyph_of(c: char) -> Option<u32> {
    if '0' <= c <= '9' {
        Some((c as u32 - '0' as u32) as u32)
    } else if c == '.' {
        Some(10)
    } else if c == ':' {
        Some(11)
    } else if c == ' ' {
        Some(12)
    } else if c == 'F' || c == 'f' {
        Some(13)
    } else if c == 'P' || c == 'p' {
        Some(14)
    } else if c == 'S' || c == 's' {
        Some(15)
    } else {
        None
    }
}

/// The glyph of a character, if it has one.
pub fn glyph_index(c: char) -> (glyph: Option<u32>)
    ensures
        glyph == glyph_of(c),
{
    match c {
        '0' => Some(0),
        '1' => Some(1),
        '2' => Some(2),
        '3' => Some(3),
        '4' => Some(4),
        '5' => Some(5),
        '6' => Some(6),
        '7' => Some(7),
        '8' => Some(8),
        '9' => Some(9),
        '.' => Some(10),
        ':' => Some(11),
        ' ' => Some(12),
        'F' | 'f' => Some(13),
        'P' | 'p' => Some(14),
        'S' | 's' => Some(15),
        _ => None,
    }
}

/// The rows of each glyph, top to bottom. Bit 4 is the leftmost pixel.
pub const GLYPH_BITS: [[u8; 7]; 16] = [
    [0b01110, 0b10001, 0b10011, 0b10101, 0b11001, 0b10001, 0b01110],
    [0b00100, 0b01100, 0b00100, 0b00100, 0b00100, 0b00100, 0b01110],
    [0b01110, 0b10001, 0b00001, 0b00010, 0b00100, 0b01000, 0b11111],
    [0b01110, 0b10001, 0b00001, 0b00110, 0b00001, 0b10001, 0b01110],
    [0b00010, 0b00110, 0b01010, 0b10010, 0b11111, 0b00010, 0b00010],
    [0b11111, 0b10000, 0b11110, 0b00001, 0b00001, 0b10001, 0b01110],
    [0b00110, 0b01000, 0b10000, 0b11110, 0b10001, 0b10001, 0b01110],
    [0b11111, 0b00001, 0b00010, 0b00100, 0b01000, 0b01000, 0b01000],
    [0b01110, 0b10001, 0b10001, 0b01110, 0b10001, 0b10001, 0b01110],
    [0b01110, 0b10001, 0b10001, 0b01111, 0b00001, 0b00010, 0b01100],
    [0b00000, 0b00000, 0b00000, 0b00000, 0b00000, 0b00100, 0b00100],
    [0b00000, 0b00100, 0b00100, 0b00000, 0b00100, 0b00100, 0b00000],
    [0b00000, 0b00000, 0b00000, 0b00000, 0b00000, 0b00000, 0b00000],
    [0b11111, 0b10000, 0b10000, 0b11110, 0b10000, 0b10000, 0b10000],
    [0b11110, 0b10001, 0b10001, 0b11110, 0b10000, 0b10000, 0b10000],
    [0b01111, 0b10000, 0b10000, 0b01110, 0b00001, 0b00001, 0b11110],
];

/// Whether the atlas pixel at `(x, y)` belongs to a glyph.
pub open spec fn atlas_pixel(x: int, y: int) -> bool {
    (GLYPH_BITS[x / 5][y] >> ((4 - x % 5) as u32)) & 1 != 0
}

/// The atlas as RGBA: white where a glyph is, transparent elsewhere.
pub open spec fn atlas_rgba() -> Seq<u8> {
    Seq::new(
        2240,
        |i: int|
            if atlas_pixel((i / 4) % 80, (i / 4) / 80) {
                255u8
            } else {
                0u8
            },
    )
}

/// Rasterises the font.
pub fn build_atlas_rgba() -> (rgba: Vec<u8>)
    ensures
        rgba@ == atlas_rgba(),
{
    let mut rgba: Vec<u8> = Vec::new();
    let mut y: u32 = 0;
    while y < ATLAS_H
        invariant
            y <= ATLAS_H,
            rgba@.len() == 4 * (y * 80),
            forall|i: int| 0 <= i < rgba@.len() ==> #[trigger] rgba@[i] == atlas_rgba()[i],
        decreases ATLAS_H - y,
    {
        let mut x: u32 = 0;
        while x < ATLAS_W
            invariant
                y < ATLAS_H,
                x <= ATLAS_W,
                rgba@.len() == 4 * (y * 80 + x),
                forall|i: int| 0 <= i < rgba@.len() ==> #[trigger] rgba@[i] == atlas_rgba()[i],
            decreases ATLAS_W - x,
        {
            let bits: u8 = GLYPH_BITS[(x / GLYPH_W) as usize][y as usize];
            let shift: u32 = GLYPH_W - 1 - x % GLYPH_W;
            let value: u8 = if (bits >> shift) & 1 != 0 {
                255
            } else {
                0
            };
            let ghost start = rgba@.len() as int;
            proof {
                assert(start / 4 == y * 80 + x);
                assert forall|k: int| 0 <= k < 4 implies #[trigger] atlas_rgba()[start + k]
                    == value by {
                    assert((start + k) / 4 == y * 80 + x);
                    assert((y * 80 + x) % 80 == x);
                    assert((y * 80 + x) / 80 == y);
                }
                assert(atlas_rgba()[start + 0] == value);
                assert(atlas_rgba()[start + 1] == value);
                assert(atlas_rgba()[start + 2] == value);
                assert(atlas_rgba()[start + 3] == value);
            }
            rgba.push(value);
            rgba.push(value);
            rgba.push(value);
            rgba.push(value);
            x += 1;
        }
        y += 1;
    }
    assert(rgba@ =~= atlas_rgba());
    rgba
}

/// The glyphs of a text. Characters without a glyph are skipped.
pub open spec fn glyphs_of(text: Seq<char>) -> Seq<u32>
    decreases text.len(),
{
    if text.len() == 0 {
        Seq::empty()
    } else {
        match glyph_of(text.last()) {
            Some(g) => glyphs_of(text.drop_last()).push(g),
            None => glyphs_of(text.drop_last()),
        }
    }
}

/// Text layout.
pub struct FontAtlas;

impl FontAtlas {
    /// Appends the glyphs of `text`. Each takes one advance; characters
    /// without a glyph take none. Returns the number of advances.
    pub fn emit(out: &mut Vec<u32>, text: &str) -> (advances: usize)
        requires
            old(out)@.len() + text@.len() <= usize::MAX,
        ensures
            final(out)@ == old(out)@ + glyphs_of(text@),
            advances == glyphs_of(text@).len(),
    {
        let n: usize = text.unicode_len();
        let mut advances: usize = 0;
        let mut i: usize = 0;
        assert(text@.take(0) =~= Seq::empty());
        assert(old(out)@ + glyphs_of(text@.take(0)) =~= old(out)@);
        while i < n
            invariant
                n == text@.len(),
                i <= n,
                out@ == old(out)@ + glyphs_of(text@.take(i as int)),
                advances == glyphs_of(text@.take(i as int)).len(),
                advances <= i,
            decreases n - i,
        {
            assert(text@.take(i + 1).drop_last() =~= text@.take(i as int));
            if let Some(g) = glyph_index(text.get_char(i)) {
                out.push(g);
                advances += 1;
            }
            i += 1;
            assert(out@ =~= old(out)@ + glyphs_of(text@.take(i as int)));
        }
        assert(text@.take(n as int) =~= text@);
        advances
    }
}

/// Emitting two texts one after the other emits their concatenation.
pub proof fn law_emit_chains(a: Seq<char>, b: Seq<char>)
    ensures
        glyphs_of(a + b) == glyphs_of(a) + glyphs_of(b),
    decreases b.len(),
{
    if b.len() == 0 {
        assert(a + b =~= a);
        assert(glyphs_of(a) + glyphs_of(b) =~= glyphs_of(a));
    } else {
        law_emit_chains(a, b.drop_last());
        assert((a + b).drop_last() =~= a + b.drop_last());
        assert(glyphs_of(a + b) =~= glyphs_of(a) + glyphs_of(b));
    }
}

/// Every glyph lies in the atlas, and glyphs are shared only between the two
/// cases of a letter.
pub proof fn law_glyphs_in_atlas(a: char, b: char)
    ensures
        glyph_of(a) matches Some(g) ==> g < GLYPHS,
        glyph_of(a) is Some && glyph_of(a) == glyph_of(b) ==> a == b
            || crate::render::renderers::ascii_lower(a) == crate::render::renderers::ascii_lower(b),
        ATLAS_W == GLYPH_W * GLYPHS,
        ATLAS_H == GLYPH_H,
{
}

/// The glyphs stand in the atlas in the order `0123456789.: FPS`; the letters may be
/// small, and no other character has a glyph.
pub proof fn law_glyphs_are_in_order(g: int, c: char)
    requires
        0 <= g < 16,
    ensures
        glyph_of("0123456789.: FPS"@[g]) == Some(g as u32),
        glyph_of("0123456789.: fps"@[g]) == Some(g as u32),
        glyph_of(c) matches Some(n) ==> n < 16 && (c == "0123456789.: FPS"@[n as int] || c
            == "0123456789.: fps"@[n as int]),
{
    reveal_strlit("0123456789.: FPS");
    reveal_strlit("0123456789.: fps");
}

/// A character gives its own glyph or none at all, and an empty text none.
pub proof fn law_character_gives_its_glyph(c: char)
    ensures
        glyphs_of(Seq::empty()).len() == 0,
        glyph_of(c) is None ==> glyphs_of(seq![c]).len() == 0,
        glyph_of(c) matches Some(g) ==> glyphs_of(seq![c]) == seq![g],
{
    assert(seq![c].drop_last() =~= Seq::empty());
    assert(glyphs_of(Seq::empty()) =~= Seq::empty());
}

/// Row `row` of glyph `g` is a number of five binary digits: the leftmost pixel is
/// worth 16, the rightmost one 1.
pub proof fn law_atlas_rows_are_binary(g: int, row: int)
    requires
        0 <= g < 16,
        0 <= row < 7,
    ensures
        atlas_pixel(5 * g, row) <==> (GLYPH_BITS[g][row] / 16) % 2 == 1,
        atlas_pixel(5 * g + 1, row) <==> (GLYPH_BITS[g][row] / 8) % 2 == 1,
        atlas_pixel(5 * g + 2, row) <==> (GLYPH_BITS[g][row] / 4) % 2 == 1,
        atlas_pixel(5 * g + 3, row) <==> (GLYPH_BITS[g][row] / 2) % 2 == 1,
        atlas_pixel(5 * g + 4, row) <==> GLYPH_BITS[g][row] % 2 == 1,
{
    let bits: u8 = GLYPH_BITS[g][row];
    assert((bits >> 4u32) & 1 != 0 <==> (bits / 16) % 2 == 1) by (bit_vector);
    assert((bits >> 3u32) & 1 != 0 <==> (bits / 8) % 2 == 1) by (bit_vector);
    assert((bits >> 2u32) & 1 != 0 <==> (bits / 4) % 2 == 1) by (bit_vector);
    assert((bits >> 1u32) & 1 != 0 <==> (bits / 2) % 2 == 1) by (bit_vector);
    assert((bits >> 0u32) & 1 != 0 <==> bits % 2 == 1) by (bit_vector);
}

/// The atlas is a picture of 80 by 7 pixels, row by row, four equal bytes each:
/// white and opaque, or black and transparent.
pub proof fn law_atlas_is_a_picture(x: int, y: int, k: int)
    requires
        0 <= x < 80,
        0 <= y < 7,
        0 <= k < 4,
    ensures
        atlas_rgba().len() == 4 * 80 * 7,
        atlas_pixel(x, y) ==> atlas_rgba()[4 * (80 * y + x) + k] == 255,
        !atlas_pixel(x, y) ==> atlas_rgba()[4 * (80 * y + x) + k] == 0,
{
    let i = 4 * (80 * y + x) + k;
    assert(i / 4 == 80 * y + x);
    assert((80 * y + x) % 80 == x && (80 * y + x) / 80 == y);
}

/// The rows of the glyphs, top to bottom, as numbers of five binary digits.
pub proof fn law_glyph_rows()
    ensures
        GLYPH_BITS[0]@ == seq![14u8, 17, 19, 21, 25, 17, 14],
        GLYPH_BITS[1]@ == seq![4u8, 12, 4, 4, 4, 4, 14],
        GLYPH_BITS[2]@ == seq![14u8, 17, 1, 2, 4, 8, 31],
        GLYPH_BITS[3]@ == seq![14u8, 17, 1, 6, 1, 17, 14],
        GLYPH_BITS[4]@ == seq![2u8, 6, 10, 18, 31, 2, 2],
        GLYPH_BITS[5]@ == seq![31u8, 16, 30, 1, 1, 17, 14],
        GLYPH_BITS[6]@ == seq![6u8, 8, 16, 30, 17, 17, 14],
        GLYPH_BITS[7]@ == seq![31u8, 1, 2, 4, 8, 8, 8],
        GLYPH_BITS[8]@ == seq![14u8, 17, 17, 14, 17, 17, 14],
        GLYPH_BITS[9]@ == seq![14u8, 17, 17, 15, 1, 2, 12],
        GLYPH_BITS[10]@ == seq![0u8, 0, 0, 0, 0, 4, 4],
        GLYPH_BITS[11]@ == seq![0u8, 4, 4, 0, 4, 4, 0],
        GLYPH_BITS[12]@ == seq![0u8, 0, 0, 0, 0, 0, 0],
        GLYPH_BITS[13]@ == seq![31u8, 16, 16, 30, 16, 16, 16],
        GLYPH_BITS[14]@ == seq![30u8, 17, 17, 30, 16, 16, 16],
        GLYPH_BITS[15]@ == seq![15u8, 16, 16, 14, 1, 1, 30],
{
}

} // verus!
