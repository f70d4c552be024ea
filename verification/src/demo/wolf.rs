//! The wolf sheet, and its stand-in.
//!
//! The sheet has 15 by 16 cells. Rows 9 to 12 hold the idle animation, one row
//! per facing. The stand-in paints two frames of a silhouette into row 9 and
//! leaves everything else transparent.

use vstd::prelude::*;

use crate::demo::textures::{filled_to, lemma_pixel_in_place, push_pixel, rgba_of, Rgb};
use crate::gfx::texture::Texture;

verus! {

pub const WOLF_ATLAS_CELLS_X: u32 = 15;

pub const WOLF_ATLAS_CELLS_Y: u32 = 16;

pub const WOLF_CELL_PX: u32 = 64;

/// Size of the sheet in pixels.
pub const WOLF_ATLAS_W: u32 = 960;

pub const WOLF_ATLAS_H: u32 = 1024;

/// Row of the first facing.
pub const WOLF_FIRST_IDLE_ROW: u32 = 9;

/// Where the sheet lies, below the program's directory.
pub fn wolf_asset_path() -> (path: &'static str)
    ensures
        path@ == "assets/wolf-all.png"@,
{
    "assets/wolf-all.png"
}

pub open spec fn square(x: int) -> int {
    x * x
}

/// How far the second frame rises.
pub open spec fn breath(frame: int) -> int {
    if frame == 0 {
        0
    } else {
        -1
    }
}

/// How far the hind legs are lifted.
pub open spec fn lift(frame: int) -> int {
    if frame == 1 {
        2
    } else {
        0
    }
}

/// The body: an ellipse of half-axes 18 and 10.
pub open spec fn in_body(px: int, py: int, frame: int) -> bool {
    100 * square(px - 30) + 324 * square(py - (36 + breath(frame))) <= 32400
}

/// The head: a disc of radius 6.
pub open spec fn in_head(px: int, py: int, frame: int) -> bool {
    square(px - 14) + square(py - (34 + breath(frame))) <= 36
}

/// A leg: a bar of width 3.
pub open spec fn in_leg(px: int, py: int, frame: int, at: int, lifted: int) -> bool {
    at - 1 <= px <= at + 1 && 46 + breath(frame) - lifted <= py <= 56 - lifted
}

/// A piece of the tail: a square of width 3.
pub open spec fn in_tail(px: int, py: int, tx: int, ty: int) -> bool {
    tx - 1 <= px <= tx + 1 && ty - 1 <= py <= ty + 1
}

/// The silhouette within a cell.
pub open spec fn in_wolf(px: int, py: int, frame: int) -> bool {
    ||| in_body(px, py, frame)
    ||| in_head(px, py, frame)
    ||| in_leg(px, py, frame, 16, 0)
    ||| in_leg(px, py, frame, 24, 0)
    ||| in_leg(px, py, frame, 34, lift(frame))
    ||| in_leg(px, py, frame, 42, lift(frame))
    ||| in_tail(px, py, 48, 32)
    ||| in_tail(px, py, 50, 30)
    ||| in_tail(px, py, 52, 28)
}

/// The stand-in sheet: frames 0 and 1 in the first two cells of the first idle
/// row.
pub open spec fn fallback_color(x: int, y: int) -> Option<Rgb> {
    if y / 64 == WOLF_FIRST_IDLE_ROW && x / 64 < 2 && in_wolf(x % 64, y % 64, x / 64) {
        Some(Rgb { r: 60, g: 70, b: 80 })
    } else {
        None
    }
}

fn hits_leg(px: i32, py: i32, top: i32, bottom: i32, at: i32) -> (hit: bool)
    requires
        0 <= px < 64,
        0 <= py < 64,
        0 < at < 64,
    ensures
        hit <==> at - 1 <= px <= at + 1 && top <= py <= bottom,
{
    px >= at - 1 && px <= at + 1 && py >= top && py <= bottom
}

fn hits_tail(px: i32, py: i32, tx: i32, ty: i32) -> (hit: bool)
    requires
        0 < tx < 64,
        0 < ty < 64,
    ensures
        hit <==> in_tail(px as int, py as int, tx as int, ty as int),
{
    px >= tx - 1 && px <= tx + 1 && py >= ty - 1 && py <= ty + 1
}

/// Whether a pixel of a cell belongs to the silhouette.
fn hits_wolf(px: i32, py: i32, frame: u32) -> (hit: bool)
    requires
        0 <= px < 64,
        0 <= py < 64,
    ensures
        hit <==> in_wolf(px as int, py as int, frame as int),
{
    let rise: i32 = if frame == 0 {
        0
    } else {
        -1
    };
    let lifted: i32 = if frame == 1 {
        2
    } else {
        0
    };
    let dx: i32 = px - 30;
    let dy: i32 = py - (36 + rise);
    let hx: i32 = px - 14;
    let hy: i32 = py - (34 + rise);
    assert(0 <= dx * dx <= 4096 && 0 <= dy * dy <= 4096 && 0 <= hx * hx <= 4096 && 0 <= hy * hy
        <= 4096) by (nonlinear_arith)
        requires
            -64 <= dx <= 64,
            -64 <= dy <= 64,
            -64 <= hx <= 64,
            -64 <= hy <= 64,
    ;
    let body: bool = 100 * (dx * dx) + 324 * (dy * dy) <= 32400;
    let head: bool = hx * hx + hy * hy <= 36;
    body || head || hits_leg(px, py, 46 + rise, 56, 16) || hits_leg(px, py, 46 + rise, 56, 24)
        || hits_leg(px, py, 46 + rise - lifted, 56 - lifted, 34) || hits_leg(
        px,
        py,
        46 + rise - lifted,
        56 - lifted,
        42,
    ) || hits_tail(px, py, 48, 32) || hits_tail(px, py, 50, 30) || hits_tail(px, py, 52, 28)
}

/// Paints the stand-in sheet.
pub fn build_wolf_fallback_rgba() -> (rgba: Vec<u8>)
    ensures
        rgba@ == rgba_of(960, 1024, |x: int, y: int| fallback_color(x, y)),
{
    let ghost color = |x: int, y: int| fallback_color(x, y);
    let ghost whole = rgba_of(960, 1024, color);
    let mut rgba: Vec<u8> = Vec::new();
    let mut y: u32 = 0;
    while y < WOLF_ATLAS_H
        invariant
            color == (|x: int, y: int| fallback_color(x, y)),
            whole == rgba_of(960, 1024, color),
            y <= WOLF_ATLAS_H,
            filled_to(rgba@, whole, y * 960),
        decreases WOLF_ATLAS_H - y,
    {
        let mut x: u32 = 0;
        while x < WOLF_ATLAS_W
            invariant
                color == (|x: int, y: int| fallback_color(x, y)),
                whole == rgba_of(960, 1024, color),
                y < WOLF_ATLAS_H,
                x <= WOLF_ATLAS_W,
                filled_to(rgba@, whole, y * 960 + x),
            decreases WOLF_ATLAS_W - x,
        {
            let pixel: Option<Rgb> = if y / WOLF_CELL_PX == WOLF_FIRST_IDLE_ROW && x / WOLF_CELL_PX
                < 2 && hits_wolf(
                (x % WOLF_CELL_PX) as i32,
                (y % WOLF_CELL_PX) as i32,
                x / WOLF_CELL_PX,
            ) {
                Some(Rgb { r: 60, g: 70, b: 80 })
            } else {
                None
            };
            let ghost before = rgba@;
            push_pixel(&mut rgba, pixel);
            proof {
                assert(pixel == color(x as int, y as int));
                lemma_pixel_in_place(before, rgba@, 960, 1024, color, x as int, y as int);
            }
            x += 1;
        }
        y += 1;
    }
    assert(rgba@ =~= whole);
    rgba
}

/// The texture fits the strips: 15 by 16 cells of 64 pixels.
pub open spec fn fits_strips(texture: Texture) -> bool {
    texture.wf() && texture.width == WOLF_ATLAS_W && texture.height == WOLF_ATLAS_H
}

/// The sheet that was loaded if it fits the strips, else the stand-in. There is
/// always a texture of the same size.
pub fn build_wolf_texture(loaded: Option<Texture>) -> (texture: Texture)
    ensures
        fits_strips(texture),
        match loaded {
            Some(sheet) => if fits_strips(sheet) {
                texture == sheet
            } else {
                texture.rgba@ == rgba_of(960, 1024, |x: int, y: int| fallback_color(x, y))
            },
            None => texture.rgba@ == rgba_of(960, 1024, |x: int, y: int| fallback_color(x, y)),
        },
{
    if let Some(sheet) = loaded {
        if sheet.width == WOLF_ATLAS_W && sheet.height == WOLF_ATLAS_H && sheet.rgba.len()
            == 3_932_160 {
            return sheet;
        }
    }
    Texture { width: WOLF_ATLAS_W, height: WOLF_ATLAS_H, rgba: build_wolf_fallback_rgba() }
}

/// The stand-in shows nothing outside the two cells that it paints, and the two
/// frames differ.
pub proof fn law_fallback_paints_two_cells(x: int, y: int)
    ensures
        fallback_color(x, y) is Some ==> 576 <= y < 640 && x < 128,
        fallback_color(16, 621) is None,
        fallback_color(80, 621) is Some,
{
    assert(!in_wolf(16, 45, 0)) by {
        assert(square(16 - 30) == 196 && square(45 - 36) == 81) by (nonlinear_arith);
        assert(square(16 - 14) == 4 && square(45 - 34) == 121) by (nonlinear_arith);
    }
}

/// The wolf at rest: an ellipse from 12 to 48 and from 26 to 46, a disc of radius 6
/// around its head, four legs three pixels wide, and a tail of three squares.
pub proof fn law_wolf_at_rest(px: int, py: int)
    ensures
        in_wolf(px, py, 0) <==> {
            ||| 100 * ((px - 30) * (px - 30)) + 324 * ((py - 36) * (py - 36)) <= 32400
            ||| (px - 14) * (px - 14) + (py - 34) * (py - 34) <= 36
            ||| 46 <= py <= 56 && (15 <= px <= 17 || 23 <= px <= 25 || 33 <= px <= 35 || 41 <= px
                <= 43)
            ||| 47 <= px <= 49 && 31 <= py <= 33
            ||| 49 <= px <= 51 && 29 <= py <= 31
            ||| 51 <= px <= 53 && 27 <= py <= 29
        },
{
}

/// The wolf breathing in: body and head are one pixel higher than at rest, the fore
/// legs reach up one pixel more, the hind legs are lifted by two, and the tail stays.
pub proof fn law_wolf_breathing_in(px: int, py: int)
    ensures
        in_body(px, py, 1) <==> in_body(px, py + 1, 0),
        in_head(px, py, 1) <==> in_head(px, py + 1, 0),
        in_wolf(px, py, 1) <==> {
            ||| 100 * ((px - 30) * (px - 30)) + 324 * ((py - 35) * (py - 35)) <= 32400
            ||| (px - 14) * (px - 14) + (py - 33) * (py - 33) <= 36
            ||| 45 <= py <= 56 && (15 <= px <= 17 || 23 <= px <= 25)
            ||| 43 <= py <= 54 && (33 <= px <= 35 || 41 <= px <= 43)
            ||| 47 <= px <= 49 && 31 <= py <= 33
            ||| 49 <= px <= 51 && 29 <= py <= 31
            ||| 51 <= px <= 53 && 27 <= py <= 29
        },
{
}

/// The stand-in paints the wolf at rest into the first cell of row 9 and the wolf
/// breathing in into the second, in one colour, and nothing else.
pub proof fn law_fallback_paints_the_wolf(x: int, y: int)
    requires
        0 <= x < 960,
        0 <= y < 1024,
    ensures
        fallback_color(x, y) is Some <==> 576 <= y < 640 && {
            ||| x < 64 && in_wolf(x, y - 576, 0)
            ||| 64 <= x < 128 && in_wolf(x - 64, y - 576, 1)
        },
        fallback_color(x, y) matches Some(c) ==> c.r == 60 && c.g == 70 && c.b == 80,
{
}

/// A sheet fits if it has 15 by 16 cells of 64 by 64 pixels, and all its bytes.
pub proof fn law_sheet_has_all_cells(texture: Texture)
    ensures
        fits_strips(texture) <==> {
            &&& texture.width == 15 * 64
            &&& texture.height == 16 * 64
            &&& texture.rgba@.len() == 4 * (15 * 64) * (16 * 64)
        },
{
    if texture.width == 960 && texture.height == 1024 {
        assert(texture.width * texture.height * 4 == 3932160) by (nonlinear_arith)
            requires
                texture.width == 960,
                texture.height == 1024,
        ;
    }
}

} // verus!
