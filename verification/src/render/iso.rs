//! The 2:1 isometric projection, on integers.
//!
//! Logic (grid) space is where the world is laid out; world space is pixels, y
//! down, with its origin at logic (0, 0). A step in grid x goes right and down,
//! a step in grid y left and down, twice as far across as down:
//!
//! ```text
//! world_x = tile_h * (gx - gy)
//! world_y = tile_h * (gx + gy) / 2
//! ```
//!
//! World coordinates are counted in half pixels, so that nothing is rounded.

use vstd::prelude::*;

verus! {

/// The world point of a grid point, in half pixels.
pub open spec fn projected(gx: int, gy: int, tile_h: int) -> (int, int) {
    (2 * tile_h * (gx - gy), tile_h * (gx + gy))
}

/// Grid to world, in half pixels.
pub fn logic_to_world(grid: (i32, i32), tile_h: u16) -> (world: (i64, i64))
    ensures
        world.0 == projected(grid.0 as int, grid.1 as int, tile_h as int).0,
        world.1 == projected(grid.0 as int, grid.1 as int, tile_h as int).1,
{
    let across: i64 = grid.0 as i64 - grid.1 as i64;
    let down: i64 = grid.0 as i64 + grid.1 as i64;
    let h: i64 = tile_h as i64;
    assert(-0x1_0000_0000 * 65536 <= h * across <= 0x1_0000_0000 * 65536) by (nonlinear_arith)
        requires
            -0x1_0000_0000 <= across <= 0x1_0000_0000,
            0 <= h <= 65536,
    ;
    assert(-0x1_0000_0000 * 65536 <= h * down <= 0x1_0000_0000 * 65536) by (nonlinear_arith)
        requires
            -0x1_0000_0000 <= down <= 0x1_0000_0000,
            0 <= h <= 65536,
    ;
    assert(2 * (h * across) == 2 * h * across) by (nonlinear_arith);
    (2 * (h * across), h * down)
}

/// World, in half pixels, to grid. The grid point is given as two numerators
/// over the denominator `4 * tile_h`.
pub fn world_to_logic(world: (i64, i64), tile_h: u16) -> (grid: (i128, i128, i64))
    ensures
        grid.0 == world.0 + 2 * world.1,
        grid.1 == 2 * world.1 - world.0,
        grid.2 == 4 * tile_h,
{
    (
        world.0 as i128 + 2 * (world.1 as i128),
        2 * (world.1 as i128) - world.0 as i128,
        4 * (tile_h as i64),
    )
}

/// From grid to world and back leads to the same grid point.
pub proof fn law_projection_round_trip(gx: int, gy: int, tile_h: int)
    ensures
        ({
            let w = projected(gx, gy, tile_h);
            &&& w.0 + 2 * w.1 == 4 * tile_h * gx
            &&& 2 * w.1 - w.0 == 4 * tile_h * gy
        }),
{
    assert(2 * tile_h * (gx - gy) + 2 * (tile_h * (gx + gy)) == 4 * tile_h * gx)
        by (nonlinear_arith);
    assert(2 * (tile_h * (gx + gy)) - 2 * tile_h * (gx - gy) == 4 * tile_h * gy)
        by (nonlinear_arith);
}

/// Different grid points have different world points.
pub proof fn law_projection_is_injective(a: (int, int), b: (int, int), tile_h: int)
    requires
        tile_h > 0,
        projected(a.0, a.1, tile_h) == projected(b.0, b.1, tile_h),
    ensures
        a == b,
{
    law_projection_round_trip(a.0, a.1, tile_h);
    law_projection_round_trip(b.0, b.1, tile_h);
    assert(a.0 == b.0 && a.1 == b.1) by (nonlinear_arith)
        requires
            tile_h > 0,
            4 * tile_h * a.0 == 4 * tile_h * b.0,
            4 * tile_h * a.1 == 4 * tile_h * b.1,
    ;
}

/// A step in x leads a tile height right and half of one down, a step in y as far
/// left and down: in half pixels, `2 * tile_h` across and `tile_h` down. The grid's
/// origin is the world's.
pub proof fn law_projection_steps(gx: int, gy: int, tile_h: int)
    ensures
        projected(0, 0, tile_h) == (0int, 0int),
        projected(gx + 1, gy, tile_h) == (
            projected(gx, gy, tile_h).0 + 2 * tile_h,
            projected(gx, gy, tile_h).1 + tile_h,
        ),
        projected(gx, gy + 1, tile_h) == (
            projected(gx, gy, tile_h).0 - 2 * tile_h,
            projected(gx, gy, tile_h).1 + tile_h,
        ),
{
    assert(2 * tile_h * (gx + 1 - gy) == 2 * tile_h * (gx - gy) + 2 * tile_h) by (nonlinear_arith);
    assert(2 * tile_h * (gx - (gy + 1)) == 2 * tile_h * (gx - gy) - 2 * tile_h)
        by (nonlinear_arith);
    assert(tile_h * (gx + 1 + gy) == tile_h * (gx + gy) + tile_h) by (nonlinear_arith);
    assert(tile_h * (gx + (gy + 1)) == tile_h * (gx + gy) + tile_h) by (nonlinear_arith);
    assert(2 * tile_h * 0 == 0 && tile_h * 0 == 0) by (nonlinear_arith);
}

} // verus!
