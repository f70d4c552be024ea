use exey_engine::demo::args::Args;
use exey_engine::demo::font::{
    build_atlas_rgba, glyph_index, FontAtlas, ATLAS_H, ATLAS_W, GLYPHS, GLYPH_H, GLYPH_W,
};
use exey_engine::demo::input::{handle_key, KeyAction, KeyInput, UiAction, UiEvent, UiState};
use exey_engine::demo::rng::DemoRng;
use exey_engine::demo::scene::{
    world_extent, Scene, SceneSprite, SpriteKind, MESH_BUILDING, MESH_TILE, MESH_WOLF,
};
use exey_engine::demo::sort_report::{log_sort_debug, Expected, ReportSprite, TilePlace};
use exey_engine::demo::textures::{build_building_rgba, build_diamond_rgba};
use exey_engine::demo::wolf::{
    build_wolf_fallback_rgba, build_wolf_texture, wolf_asset_path, WOLF_ATLAS_H, WOLF_ATLAS_W,
};
use exey_engine::engine::sort_world;
use exey_engine::gfx::Texture;
use exey_engine::{IsoBounds, IsoSortable, IsometricRectangleSorter, RendererKind};

fn strings(list: &[&str]) -> Vec<String> {
    list.iter().map(|s| s.to_string()).collect()
}

#[test]
fn glyphs_of_characters() {
    for (i, c) in "0123456789.: FPS".chars().enumerate() {
        assert_eq!(glyph_index(c), Some(i as u32));
    }
    assert_eq!(glyph_index('f'), Some(13));
    assert_eq!(glyph_index('p'), Some(14));
    assert_eq!(glyph_index('s'), Some(15));
    assert_eq!(glyph_index(','), None);
    assert_eq!(glyph_index('-'), None);
    assert_eq!(glyph_index('\u{0664}'), None);
}

#[test]
fn the_atlas_holds_the_glyphs() {
    let rgba = build_atlas_rgba();
    assert_eq!(rgba.len(), (ATLAS_W * ATLAS_H * 4) as usize);
    assert_eq!((ATLAS_W, ATLAS_H), (GLYPH_W * GLYPHS, GLYPH_H));
    let row = |y: u32, glyph: u32| -> String {
        (0..5)
            .map(|x| {
                let i = ((y * ATLAS_W + glyph * 5 + x) * 4) as usize;
                let p = &rgba[i..i + 4];
                assert!(p == [0; 4] || p == [255; 4]);
                if p[0] == 255 { '#' } else { '.' }
            })
            .collect()
    };
    assert_eq!(row(0, 0), ".###.");
    assert_eq!(row(2, 0), "#..##");
    assert_eq!(row(0, 1), "..#..");
    assert_eq!(row(4, 4), "#####");
    assert_eq!(row(3, 12), ".....");
    assert_eq!(row(0, 15), ".####");
    assert_eq!(row(6, 15), "####.");
}

#[test]
fn text_skips_characters_without_a_glyph() {
    let mut out = vec![99];
    assert_eq!(FontAtlas::emit(&mut out, "FPS: 60"), 7);
    assert_eq!(out, vec![99, 13, 14, 15, 11, 12, 6, 0]);
    let mut out = Vec::new();
    assert_eq!(FontAtlas::emit(&mut out, "12,3"), 3);
    assert_eq!(out, vec![1, 2, 3]);
    assert_eq!(FontAtlas::emit(&mut out, ""), 0);
}

#[test]
fn random_numbers_are_reproducible() {
    let mut r = DemoRng::new(0);
    assert_eq!(r.next_u32(), 270369);
    assert_eq!(r.next_u32(), 67634689);
    let mut a = DemoRng::new(0xC0FFEE);
    let mut b = DemoRng::new(0xC0FFEF);
    assert_eq!(a.next_u32(), b.next_u32());
    let mut c = DemoRng::new(1);
    assert_eq!(c.range(7), 270369 % 7);
    assert_eq!(c.range(0), 0);
    assert_eq!(c.range(1), 0);
    assert_ne!(c.0, 0);
}

fn pixel(rgba: &[u8], w: u32, x: u32, y: u32) -> [u8; 4] {
    let i = ((y * w + x) * 4) as usize;
    [rgba[i], rgba[i + 1], rgba[i + 2], rgba[i + 3]]
}

fn diamond_in_floats(tile_w: u32, tile_h: u32) -> Vec<u8> {
    let mut rgba = Vec::new();
    let cx = (tile_w - 1) as f32 * 0.5;
    let cy = (tile_h - 1) as f32 * 0.5;
    for y in 0..tile_h {
        for x in 0..tile_w {
            let nx = (x as f32 - cx).abs() / cx;
            let ny = (y as f32 - cy).abs() / cy;
            let d = nx + ny;
            rgba.extend_from_slice(&if d <= 1.0 {
                if d > 0.94 {
                    [32, 24, 16, 255]
                } else {
                    let t = y as f32 / tile_h as f32;
                    let (lo, hi) = (0.55f32, 0.85f32);
                    let v = lo + (hi - lo) * (1.0 - t);
                    [(110.0 * v) as u8, (165.0 * v) as u8, (95.0 * v) as u8, 255]
                }
            } else {
                [0, 0, 0, 0]
            });
        }
    }
    rgba
}

fn building_in_floats(tile_w: u32, tile_h: u32, body_extra: u32) -> (u32, u32, Vec<u8>) {
    let (base_w, base_h) = (tile_w * 2, tile_h * 2);
    let height = base_h + body_extra;
    let cx = (base_w - 1) as f32 * 0.5;
    let base_top_y = body_extra as f32;
    let base_cy = base_top_y + (base_h - 1) as f32 * 0.5;
    let (half_w, half_h) = (cx, (base_h - 1) as f32 * 0.5);
    let mut rgba = Vec::new();
    for y in 0..height {
        for x in 0..base_w {
            let (xf, yf) = (x as f32, y as f32);
            let in_body = yf < base_top_y && {
                let frac = yf / base_top_y;
                let w_at_y = half_w * frac;
                (xf - cx).abs() <= w_at_y
            };
            let d = (xf - cx).abs() / half_w + (yf - base_cy).abs() / half_h;
            rgba.extend_from_slice(&if in_body {
                let shade = 0.7f32 + 0.3f32 * (yf / height as f32);
                [(180.0 * shade) as u8, (130.0 * shade) as u8, (90.0 * shade) as u8, 255]
            } else if d <= 1.0 && yf >= base_top_y {
                if d > 0.92 {
                    [40, 30, 20, 255]
                } else {
                    [200, 160, 110, 255]
                }
            } else {
                [0, 0, 0, 0]
            });
        }
    }
    (base_w, height, rgba)
}

#[test]
fn tiles_are_diamonds() {
    let rgba = build_diamond_rgba(64, 32);
    assert_eq!(rgba, diamond_in_floats(64, 32));
    assert_eq!(rgba.len(), 64 * 32 * 4);
    assert_eq!(pixel(&rgba, 64, 0, 0), [0, 0, 0, 0]);
    assert_eq!(pixel(&rgba, 64, 32, 16), [77, 115, 66, 255]);
}

#[test]
fn tiles_of_all_sizes_round_like_floats() {
    for w in 1..=40 {
        for h in 1..=30 {
            assert_eq!(build_diamond_rgba(w, h), diamond_in_floats(w, h), "{w} by {h}");
        }
    }
    assert_eq!(build_diamond_rgba(4097, 3), diamond_in_floats(4097, 3));
    assert_eq!(build_diamond_rgba(3, 5000), diamond_in_floats(3, 5000));
}

#[test]
fn tiny_tiles_are_empty() {
    assert_eq!(build_diamond_rgba(1, 3), vec![0; 12]);
    assert_eq!(build_diamond_rgba(3, 1), vec![0; 12]);
    // Three by three: the cross is on the edge, the corners are cut out.
    let rgba = build_diamond_rgba(3, 3);
    assert_eq!(pixel(&rgba, 3, 0, 0), [0, 0, 0, 0]);
    assert_eq!(pixel(&rgba, 3, 1, 0), [32, 24, 16, 255]);
    assert_eq!(pixel(&rgba, 3, 1, 1)[3], 255);
}

#[test]
fn tiles_are_symmetric() {
    let rgba = build_diamond_rgba(21, 14);
    for y in 0..14 {
        for x in 0..21 {
            assert_eq!(pixel(&rgba, 21, x, y), pixel(&rgba, 21, 20 - x, y));
            assert_eq!(pixel(&rgba, 21, x, y)[3], pixel(&rgba, 21, x, 13 - y)[3]);
        }
    }
}

#[test]
fn buildings_have_a_body_and_a_base() {
    let (w, h, rgba) = build_building_rgba(64, 32, 48);
    assert_eq!((w, h), (128, 112));
    assert_eq!((w, h, rgba), building_in_floats(64, 32, 48));
}

#[test]
fn buildings_of_all_sizes_round_like_floats() {
    for w in 1..=14 {
        for h in 1..=9 {
            for extra in [0, 1, 2, 3, 7, 19, 24] {
                assert_eq!(
                    build_building_rgba(w, h, extra),
                    building_in_floats(w, h, extra),
                    "{w} by {h}, {extra} rows"
                );
            }
        }
    }
    // In row 3 the reach is rounded to just below 7.5, the offset of pixel 40.
    let built = build_building_rgba(48, 16, 19);
    assert_eq!(pixel(&built.2, 96, 40, 3), [0, 0, 0, 0]);
    assert_eq!(pixel(&built.2, 96, 41, 3)[3], 255);
    assert_eq!(built, building_in_floats(48, 16, 19));
}

#[test]
fn the_stand_in_wolf_breathes() {
    let rgba = build_wolf_fallback_rgba();
    assert_eq!(rgba.len(), (WOLF_ATLAS_W * WOLF_ATLAS_H * 4) as usize);
    let slate = [60, 70, 80, 255];
    let none = [0, 0, 0, 0];
    let at = |frame: u32, px: u32, py: u32| pixel(&rgba, WOLF_ATLAS_W, frame * 64 + px, 576 + py);
    // Body, head, a front leg, tail.
    assert_eq!(at(0, 30, 36), slate);
    assert_eq!(at(0, 14, 34), slate);
    assert_eq!(at(0, 16, 56), slate);
    assert_eq!(at(0, 53, 27), slate);
    assert_eq!(at(0, 60, 10), none);
    // The body rises by one and the hind legs by two.
    assert_eq!((at(0, 30, 46), at(0, 30, 26)), (slate, slate));
    assert_eq!((at(1, 30, 45), at(1, 30, 25)), (slate, slate));
    assert_eq!((at(0, 42, 56), at(1, 42, 56), at(1, 42, 54)), (slate, none, slate));
    // Nothing anywhere else.
    assert_eq!(pixel(&rgba, WOLF_ATLAS_W, 128 + 30, 576 + 36), none);
    assert_eq!(pixel(&rgba, WOLF_ATLAS_W, 30, 640 + 36), none);
    let painted = rgba.chunks(4).filter(|p| p[3] != 0).count();
    let inside = (0..64 * 64)
        .map(|i| (at(0, i % 64, i / 64), at(1, i % 64, i / 64)))
        .map(|(a, b)| (a == slate) as usize + (b == slate) as usize)
        .sum::<usize>();
    assert_eq!(painted, inside);
}

#[test]
fn only_a_sheet_that_fits_is_used() {
    assert_eq!(wolf_asset_path(), "assets/wolf-all.png");
    let stand_in = build_wolf_fallback_rgba();
    let t = build_wolf_texture(None);
    assert_eq!((t.width, t.height), (960, 1024));
    assert_eq!(t.rgba, stand_in);
    let small = Texture { width: 2, height: 1, rgba: vec![1; 8] };
    assert_eq!(build_wolf_texture(Some(small)).rgba, stand_in);
    let sheet = Texture { width: 960, height: 1024, rgba: vec![7; 960 * 1024 * 4] };
    assert_eq!(build_wolf_texture(Some(sheet)).rgba[0], 7);
}

#[test]
fn the_world_is_laid_out() {
    let scene = Scene::new(2.5f32.to_bits());
    assert_eq!(scene.world.len(), 32 * 32 + 2 + 12);
    let tile = |i: usize| -> SceneSprite { scene.world[i] };
    assert_eq!((tile(0).pos, tile(0).size), ((-32, 0), (64, 32)));
    assert_eq!(tile(0).kind, SpriteKind::Tile { bright: true });
    assert_eq!(tile(33).iso_grid, (1, 1));
    assert_eq!(tile(33).pos, (-32, 32));
    assert_eq!(tile(34).pos, (0, 48));
    assert_eq!(tile(34).kind, SpriteKind::Tile { bright: false });
    assert_eq!(tile(1023).iso_grid, (31, 31));
    assert_eq!(tile(1023).mesh_idx, MESH_TILE);
    let b = tile(1025);
    assert_eq!((b.pos, b.size), ((-64, 16 * 30 - 48), (128, 112)));
    assert_eq!((b.iso_grid, b.iso_grid_size, b.mesh_idx), ((17, 17), (2, 2), MESH_BUILDING));
    assert_eq!(tile(1024).iso_grid, (2, 2));
    // The wolves follow the generator.
    let mut rng = DemoRng::new(0xC0FFEE);
    for w in 1026..1038 {
        let gx = rng.range(32) as i32;
        let gy = rng.range(32) as i32;
        let facing = rng.range(4);
        let stagger = rng.next_u32();
        let s = tile(w);
        assert_eq!(s.iso_grid, (gx + 1, gy + 1));
        assert_eq!(s.pos, (32 * (gx - gy) - 32, 16 * (gx + gy) - 16));
        assert_eq!(s.kind, SpriteKind::Wolf { facing, stagger });
        assert_eq!((s.size, s.mesh_idx), ((64, 64), MESH_WOLF));
    }
    assert_eq!(scene.strips.len(), 4);
    assert_eq!((scene.strips[3].row, scene.strips[3].frame_count), (12, 2));
    assert_eq!(scene.strips[0].fps, 2.5f32.to_bits());
    assert_eq!(world_extent(), (2048, 1024));
}

#[test]
fn tiles_are_labelled_with_their_coordinates() {
    let scene = Scene::new(0);
    // Tile (0, 0): two glyphs, 9 pixels apart, centred on x = 0.
    assert_eq!((scene.labels[0].x, scene.labels[0].y, scene.labels[0].glyph), (-18, 4, 0));
    assert_eq!((scene.labels[1].x, scene.labels[1].y, scene.labels[1].glyph), (0, 4, 0));
    let digits = |n: usize| if n < 10 { 1 } else { 2 };
    let mut count = 0;
    for gy in 0..32 {
        for gx in 0..32 {
            count += digits(gx) + digits(gy);
        }
    }
    assert_eq!(scene.labels.len(), count);
    let last: Vec<u32> = scene.labels[count - 4..].iter().map(|g| g.glyph).collect();
    assert_eq!(last, vec![3, 1, 3, 1]);
}

#[test]
fn the_report_covers_the_buildings() {
    let scene = Scene::new(0);
    let mut sorter = IsometricRectangleSorter::new();
    let order = sort_world(&mut sorter, &scene.world);
    let world: Vec<ReportSprite> = scene
        .world
        .iter()
        .map(|s| ReportSprite { mesh_idx: s.mesh_idx, bounds: s.iso_bounds() })
        .collect();
    let reports = log_sort_debug(&order, &world);
    assert_eq!(reports.len(), 2);
    let mut sprites: Vec<u32> = reports.iter().map(|r| r.sprite).collect();
    sprites.sort();
    assert_eq!(sprites, vec![1024, 1025]);
    for r in &reports {
        assert_eq!(order[r.rank], r.sprite);
        let own: Vec<usize> = r.neighbours.iter().filter(|n| n.own).map(|n| n.rank).collect();
        assert_eq!(own, vec![r.rank]);
        assert!(r.neighbours.len() <= 21);
        for n in &r.neighbours {
            assert_eq!(order[n.rank], n.sprite);
        }
    }
    for r in &reports {
        let b = world[r.sprite as usize].bounds;
        assert_eq!((r.extent.grid_x, r.extent.grid_y), scene.world[r.sprite as usize].iso_grid);
        assert_eq!((r.extent.size_x, r.extent.size_y), (2, 2));
        assert_eq!(r.extent.bounds, b);
        assert_eq!((r.extent.left, r.extent.right), (b.iso_left(), b.iso_right()));
        for n in &r.neighbours {
            let s = &scene.world[n.sprite as usize];
            assert_eq!(n.mesh_idx, s.mesh_idx);
            assert_eq!((n.grid_x, n.grid_y), s.iso_grid);
            let nb = s.iso_bounds();
            assert_eq!((n.left, n.right), (nb.iso_left(), nb.iso_right()));
        }
    }
    // The building in the corner has no tiles to its left.
    let corner = reports.iter().find(|r| r.sprite == 1024).unwrap();
    assert_eq!(corner.tiles.len(), 7);
    let centre = reports.iter().find(|r| r.sprite == 1025).unwrap();
    assert_eq!(centre.tiles.len(), 9);
    assert_eq!(centre.tiles[0].place, TilePlace::BackCorner);
    assert_eq!((centre.tiles[0].tx, centre.tiles[0].ty), (15, 15));
    assert_eq!(centre.tiles[0].expected, Expected::Open);
    assert_eq!(centre.tiles[1].expected, Expected::BuildingInFront);
    assert_eq!(centre.tiles[8].expected, Expected::TileInFront);
    // Tile (15, 15) covers cells 14 to 15: the building begins where it ends.
    assert_eq!(centre.tiles[0].comparison.a_term, 0);
    assert_eq!(centre.tiles[0].comparison.sign, 1);
    for t in &centre.tiles {
        assert_eq!(order[t.rank], t.ty * 32 + t.tx);
    }
}

#[test]
fn small_worlds_can_be_reported_on() {
    // No building: nothing to report.
    let tile = ReportSprite { mesh_idx: MESH_TILE, bounds: IsoBounds::from_grid((1, 1), (1, 1)) };
    assert!(log_sort_debug(&[0], &[tile]).is_empty());
    // A building off the grid has neighbours, but no tiles.
    let away = ReportSprite {
        mesh_idx: MESH_BUILDING,
        bounds: IsoBounds::from_grid((-7, -8), (2, 3)),
    };
    let reports = log_sort_debug(&[1, 0], &[tile, away]);
    assert_eq!(reports.len(), 1);
    assert_eq!((reports[0].sprite, reports[0].rank), (1, 0));
    assert_eq!((reports[0].extent.size_x, reports[0].extent.size_y), (2, 3));
    assert_eq!((reports[0].extent.left, reports[0].extent.right), (-1, 4));
    assert_eq!(reports[0].neighbours.len(), 2);
    assert!(reports[0].tiles.is_empty());
}

#[test]
fn the_command_line_picks_a_renderer() {
    let parse = |list: &[&str]| Args::parse(&strings(list));
    assert_eq!(parse(&[]).renderer, RendererKind::BigBuffer);
    assert_eq!(parse(&["--renderer", "simple"]).renderer, RendererKind::Simple);
    assert_eq!(parse(&["-r", "BATCH"]).renderer, RendererKind::Batch);
    assert_eq!(parse(&["--renderer=batch"]).renderer, RendererKind::Batch);
    assert_eq!(parse(&["--renderer=--renderer=batch"]).renderer, RendererKind::Batch);
    assert_eq!(parse(&["-r", "simple", "-r", "batch"]).renderer, RendererKind::Batch);
    assert_eq!(parse(&["x", "--renderer=nope", "-r"]).renderer, RendererKind::BigBuffer);
    let odd = parse(&["-r", "simple", "-r", "foo"]);
    assert_eq!((odd.renderer, odd.unknown), (RendererKind::Simple, strings(&["foo"])));
    assert!(parse(&["--renderer=nope"]).unknown.is_empty());
    assert!(parse(&["a", "-h", "-r", "simple"]).help);
    assert!(parse(&["--help"]).help);
    // A value is a value, whatever it looks like.
    let value = parse(&["-r", "--help"]);
    assert!(!value.help);
    assert_eq!(value.unknown, strings(&["--help"]));
}

#[test]
fn keys_zoom_and_quit() {
    let text = |s: &str| KeyInput::Text(s.to_string());
    assert_eq!(handle_key(&text("+"), true), vec![KeyAction::ZoomIn]);
    assert_eq!(handle_key(&text("="), true), vec![KeyAction::ZoomIn]);
    assert_eq!(
        handle_key(&text("-x_"), true),
        vec![KeyAction::ZoomOut, KeyAction::ZoomOut]
    );
    assert_eq!(handle_key(&KeyInput::ArrowUp, true), vec![KeyAction::ZoomIn]);
    assert_eq!(handle_key(&KeyInput::ArrowDown, true), vec![KeyAction::ZoomOut]);
    assert_eq!(handle_key(&KeyInput::Escape, true), vec![KeyAction::Quit]);
    assert!(handle_key(&KeyInput::Other, true).is_empty());
    assert!(handle_key(&text("+"), false).is_empty());
}

#[test]
fn dragging_pans() {
    let mut ui = UiState::new((0, 0));
    assert!(matches!(ui.window_event(UiEvent::CursorMoved { position: (3, 4) }), UiAction::Nothing));
    assert!(matches!(ui.window_event(UiEvent::LeftPressed), UiAction::Nothing));
    match ui.window_event(UiEvent::CursorMoved { position: (5, 9) }) {
        UiAction::Pan { from, to } => assert_eq!((from, to), ((3, 4), (5, 9))),
        _ => panic!("the world follows the cursor"),
    }
    match ui.window_event(UiEvent::CursorMoved { position: (6, 9) }) {
        UiAction::Pan { from, to } => assert_eq!((from, to), ((5, 9), (6, 9))),
        _ => panic!("the world follows the cursor"),
    }
    ui.window_event(UiEvent::LeftReleased);
    assert!(matches!(ui.window_event(UiEvent::CursorMoved { position: (0, 0) }), UiAction::Nothing));
    assert_eq!(ui.cursor, (0, 0));
}

#[test]
fn window_events_lead_to_actions() {
    let mut ui = UiState::new(0);
    assert!(matches!(ui.window_event(UiEvent::CloseRequested), UiAction::Exit));
    assert!(matches!(
        ui.window_event(UiEvent::Resized { width: 3, height: 2 }),
        UiAction::Resize { width: 3, height: 2 }
    ));
    assert!(matches!(
        ui.window_event(UiEvent::RedrawRequested),
        UiAction::Redraw { report_order: true }
    ));
    assert!(matches!(
        ui.window_event(UiEvent::RedrawRequested),
        UiAction::Redraw { report_order: false }
    ));
}

#[test]
fn the_overlay_is_rebuilt_on_change() {
    let mut ui = UiState::new(0);
    let text = "FPS: 60".to_string();
    assert!(ui.rebuild_fps_overlay(&text));
    assert!(!ui.rebuild_fps_overlay(&text));
    assert!(ui.rebuild_fps_overlay(&"FPS: 61".to_string()));
    assert_eq!(ui.last_fps_text, "FPS: 61");
}
