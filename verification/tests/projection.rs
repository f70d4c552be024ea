use exey_engine::iso::{logic_to_world, world_to_logic};

#[test]
fn round_trip_logic_to_world_to_logic() {
    let tile_h = 32;
    for gx in 0..10 {
        for gy in 0..10 {
            let g = (gx, gy);
            let w = logic_to_world(g, tile_h);
            let (nx, ny, d) = world_to_logic(w, tile_h);
            let g2 = (nx as f32 / d as f32, ny as f32 / d as f32);
            let (dx, dy) = (gx as f32 - g2.0, gy as f32 - g2.1);
            assert!((dx * dx + dy * dy).sqrt() < 1e-3, "g={g:?} -> w={w:?} -> g2={g2:?}");
        }
    }
}

#[test]
fn diamond_corners() {
    let tile_h = 32;
    // World coordinates come in half pixels.
    let pixels = |gx: i32, gy: i32| {
        let w = logic_to_world((gx, gy), tile_h);
        (w.0 as f32 / 2.0, w.1 as f32 / 2.0)
    };
    assert_eq!(pixels(0, 0), (0.0, 0.0));
    assert_eq!(pixels(1, 0), (32.0, 16.0));
    assert_eq!(pixels(0, 1), (-32.0, 16.0));
    assert_eq!(pixels(1, 1), (0.0, 32.0));
}

#[test]
fn odd_tiles_keep_their_half_pixels() {
    assert_eq!(logic_to_world((1, 0), 5), (10, 5));
    assert_eq!(world_to_logic((10, 5), 5), (20, 0, 20));
}

#[test]
fn far_away_points_do_not_overflow() {
    let w = logic_to_world((i32::MAX, i32::MIN), u16::MAX);
    assert_eq!(w.0, 2 * 65535 * (i32::MAX as i64 - i32::MIN as i64));
    assert_eq!(w.1, -65535);
    let (nx, ny, d) = world_to_logic(w, u16::MAX);
    assert_eq!((nx / d as i128, ny / d as i128), (i32::MAX as i128, i32::MIN as i128));
    assert_eq!(
        world_to_logic((i64::MIN, i64::MAX), 1).1,
        2 * (i64::MAX as i128) - i64::MIN as i128
    );
}
