//! What stands where in the demo world.
//!
//! A 32 by 32 grid of tiles, two buildings and a dozen wolves at random places.
//! All positions are whole world pixels; label positions are half pixels.

use vstd::prelude::*;

use crate::demo::rng::{drawn, DemoRng};
use crate::draw::animation::{FrameStrip, LoopMode};
use crate::render::iso::projected;
use crate::render::sort::iso_rect::behind;
use crate::render::sort::{IsoBounds, IsoSortable};

verus! {

pub const TILE_W: u32 = 64;

pub const TILE_H: u32 = 32;

pub const GRID_W: u32 = 32;

pub const GRID_H: u32 = 32;

pub const BUILDING_COUNT: usize = 2;

pub const WOLF_COUNT: usize = 12;

/// Rows by which a building's body rises above its base.
pub const BODY_EXTRA: u32 = 48;

/// Meshes, in the order in which they are handed to the renderer.
pub const MESH_TILE: u8 = 0;

pub const MESH_BUILDING: u8 = 1;

pub const MESH_FONT: u8 = 2;

pub const MESH_WOLF: u8 = 3;

/// Frames of the idle animation.
pub const WOLF_IDLE_FRAME_COUNT: u32 = 2;

/// Facings of a wolf, each with a row of the sheet.
pub const WOLF_FACINGS: u32 = 4;

/// Seed of the wolves' places.
pub const WOLF_SEED: u32 = 0xC0FFEE;

/// What a sprite of the world is.
#[derive(Clone, Copy, Debug, PartialEq, Eq, Structural)]
pub enum SpriteKind {
    /// A tile; every other one is bright.
    Tile { bright: bool },
    Building,
    /// A wolf. The raw random number staggers its animation.
    Wolf { facing: u32, stagger: u32 },
}

/// A sprite of the world.
#[derive(Clone, Copy, Debug)]
pub struct SceneSprite {
    /// Top left in world pixels.
    pub pos: (i32, i32),
    /// Size in world pixels.
    pub size: (u32, u32),
    /// Front corner and size of the footprint, in grid cells.
    pub iso_grid: (i32, i32),
    pub iso_grid_size: (i32, i32),
    pub mesh_idx: u8,
    pub kind: SpriteKind,
}

impl IsoSortable for SceneSprite {
    open spec fn footprint(&self) -> IsoBounds {
        IsoBounds {
            iso_x1: (self.iso_grid.0 - self.iso_grid_size.0) as i32,
            iso_y1: (self.iso_grid.1 - self.iso_grid_size.1) as i32,
            iso_x2: self.iso_grid.0,
            iso_y2: self.iso_grid.1,
            index: 0,
        }
    }

    open spec fn footprint_fits(&self) -> bool {
        &&& i32::MIN <= self.iso_grid.0 - self.iso_grid_size.0 <= i32::MAX
        &&& i32::MIN <= self.iso_grid.1 - self.iso_grid_size.1 <= i32::MAX
    }

    fn iso_bounds(&self) -> (b: IsoBounds) {
        IsoBounds::from_grid(self.iso_grid, self.iso_grid_size)
    }
}

/// World pixel of a grid point.
pub open spec fn anchor(gx: int, gy: int) -> (int, int) {
    (32 * (gx - gy), 16 * (gx + gy))
}

/// The anchor is the projection of the grid point.
pub proof fn law_anchor_is_projection(gx: int, gy: int)
    ensures
        projected(gx, gy, TILE_H as int) == (2 * anchor(gx, gy).0, 2 * anchor(gx, gy).1),
{
    assert(2 * 32 * (gx - gy) == 2 * (32 * (gx - gy))) by (nonlinear_arith);
    assert(32 * (gx + gy) == 2 * (16 * (gx + gy))) by (nonlinear_arith);
}

/// The tile of a grid cell.
pub open spec fn tile_at(gx: int, gy: int) -> SceneSprite {
    SceneSprite {
        pos: ((anchor(gx, gy).0 - 32) as i32, anchor(gx, gy).1 as i32),
        size: (64, 32),
        iso_grid: (gx as i32, gy as i32),
        iso_grid_size: (1, 1),
        mesh_idx: MESH_TILE,
        kind: SpriteKind::Tile { bright: (gx + gy) % 2 == 0 },
    }
}

/// The building whose back tile is a grid cell. It is sorted one step past its
/// front tile.
pub open spec fn building_at(gx: int, gy: int) -> SceneSprite {
    SceneSprite {
        pos: ((anchor(gx, gy).0 - 64) as i32, (anchor(gx, gy).1 - 48) as i32),
        size: (128, 112),
        iso_grid: ((gx + 2) as i32, (gy + 2) as i32),
        iso_grid_size: (2, 2),
        mesh_idx: MESH_BUILDING,
        kind: SpriteKind::Building,
    }
}

/// A wolf on a grid cell. It is sorted in front of the tile it stands on.
pub open spec fn wolf_at(gx: int, gy: int, facing: u32, stagger: u32) -> SceneSprite {
    SceneSprite {
        pos: ((anchor(gx, gy).0 - 32) as i32, (anchor(gx, gy).1 - 16) as i32),
        size: (64, 64),
        iso_grid: ((gx + 1) as i32, (gy + 1) as i32),
        iso_grid_size: (1, 1),
        mesh_idx: MESH_WOLF,
        kind: SpriteKind::Wolf { facing, stagger },
    }
}

/// Wolf number `w`: cell, facing and stagger are four random numbers in a row.
pub open spec fn wolf_number(w: nat) -> SceneSprite {
    let s = WOLF_SEED | 1;
    wolf_at(
        (drawn(s, 4 * w + 1) % 32) as int,
        (drawn(s, 4 * w + 2) % 32) as int,
        drawn(s, 4 * w + 3) % 4,
        drawn(s, 4 * w + 4),
    )
}

/// The sprites of the world: tiles row by row, the two buildings, the wolves.
pub open spec fn scene_sprite(i: int) -> SceneSprite {
    if i < 1024 {
        tile_at(i % 32, i / 32)
    } else if i == 1024 {
        building_at(0, 0)
    } else if i == 1025 {
        building_at(15, 15)
    } else {
        wolf_number((i - 1026) as nat)
    }
}

/// Decimal digits of a number.
pub open spec fn decimal(n: nat) -> Seq<u32>
    decreases n,
{
    if n < 10 {
        seq![n as u32]
    } else {
        decimal(n / 10).push((n % 10) as u32)
    }
}

/// A glyph of a tile label. `x` is in half pixels.
#[derive(Clone, Copy, Debug, PartialEq, Eq, Structural)]
pub struct LabelGlyph {
    pub x: i32,
    pub y: i32,
    pub glyph: u32,
}

/// The digits of a tile's coordinates.
pub open spec fn label_digits(gx: nat, gy: nat) -> Seq<u32> {
    decimal(gx) + decimal(gy)
}

/// The label of a tile: its coordinates, centred on its top corner and four
/// pixels down. Glyphs are 9 pixels apart.
pub open spec fn label_at(gx: nat, gy: nat) -> Seq<LabelGlyph> {
    let digits = label_digits(gx, gy);
    Seq::new(
        digits.len(),
        |i: int|
            LabelGlyph {
                x: (2 * anchor(gx as int, gy as int).0 - 9 * digits.len() + 18 * i) as i32,
                y: (anchor(gx as int, gy as int).1 + 4) as i32,
                glyph: digits[i],
            },
    )
}

/// The labels of the first `n` tiles.
pub open spec fn labels_to(n: nat) -> Seq<LabelGlyph>
    decreases n,
{
    if n == 0 {
        Seq::empty()
    } else {
        labels_to((n - 1) as nat) + label_at(((n - 1) % 32) as nat, ((n - 1) / 32) as nat)
    }
}

/// The idle strip of a facing.
pub open spec fn wolf_strip(facing: int, fps: u32) -> FrameStrip {
    FrameStrip {
        atlas_cells_x: 15,
        atlas_cells_y: 16,
        row: (9 + facing) as u32,
        col0: 0,
        frame_count: 2,
        fps,
        loop_mode: LoopMode::Loop,
    }
}

/// The demo world.
pub struct Scene {
    pub world: Vec<SceneSprite>,
    pub labels: Vec<LabelGlyph>,
    /// One idle strip per facing.
    pub strips: Vec<FrameStrip>,
}

fn anchor_of(gx: u32, gy: u32) -> (a: (i32, i32))
    requires
        gx < 32,
        gy < 32,
    ensures
        a.0 == anchor(gx as int, gy as int).0,
        a.1 == anchor(gx as int, gy as int).1,
{
    (32 * (gx as i32 - gy as i32), 16 * (gx as i32 + gy as i32))
}

fn place_tile(gx: u32, gy: u32) -> (s: SceneSprite)
    requires
        gx < 32,
        gy < 32,
    ensures
        s == tile_at(gx as int, gy as int),
{
    let a: (i32, i32) = anchor_of(gx, gy);
    SceneSprite {
        pos: (a.0 - 32, a.1),
        size: (TILE_W, TILE_H),
        iso_grid: (gx as i32, gy as i32),
        iso_grid_size: (1, 1),
        mesh_idx: MESH_TILE,
        kind: SpriteKind::Tile { bright: (gx + gy) % 2 == 0 },
    }
}

fn place_building(gx: u32, gy: u32) -> (s: SceneSprite)
    requires
        gx < 32,
        gy < 32,
    ensures
        s == building_at(gx as int, gy as int),
{
    let a: (i32, i32) = anchor_of(gx, gy);
    SceneSprite {
        pos: (a.0 - 64, a.1 - 48),
        size: (2 * TILE_W, 2 * TILE_H + BODY_EXTRA),
        iso_grid: (gx as i32 + 2, gy as i32 + 2),
        iso_grid_size: (2, 2),
        mesh_idx: MESH_BUILDING,
        kind: SpriteKind::Building,
    }
}

fn place_wolf(gx: u32, gy: u32, facing: u32, stagger: u32) -> (s: SceneSprite)
    requires
        gx < 32,
        gy < 32,
    ensures
        s == wolf_at(gx as int, gy as int, facing, stagger),
{
    let a: (i32, i32) = anchor_of(gx, gy);
    SceneSprite {
        pos: (a.0 - 32, a.1 - 16),
        size: (64, 64),
        iso_grid: (gx as i32 + 1, gy as i32 + 1),
        iso_grid_size: (1, 1),
        mesh_idx: MESH_WOLF,
        kind: SpriteKind::Wolf { facing, stagger },
    }
}

/// Appends the decimal digits of a number.
fn push_digits(digits: &mut Vec<u32>, n: u32)
    ensures
        final(digits)@ == old(digits)@ + decimal(n as nat),
    decreases n,
{
    if n >= 10 {
        push_digits(digits, n / 10);
    }
    digits.push(n % 10);
    assert(digits@ =~= old(digits)@ + decimal(n as nat));
}

/// Appends the label of a tile.
fn push_label(labels: &mut Vec<LabelGlyph>, gx: u32, gy: u32)
    requires
        gx < 32,
        gy < 32,
    ensures
        final(labels)@ == old(labels)@ + label_at(gx as nat, gy as nat),
{
    let mut digits: Vec<u32> = Vec::new();
    push_digits(&mut digits, gx);
    push_digits(&mut digits, gy);
    assert(digits@ =~= label_digits(gx as nat, gy as nat));
    proof {
        lemma_two_digits(gx as nat);
        lemma_two_digits(gy as nat);
    }
    let a: (i32, i32) = anchor_of(gx, gy);
    let count: i32 = digits.len() as i32;
    let mut i: usize = 0;
    while i < digits.len()
        invariant
            i <= digits@.len(),
            gx < 32,
            gy < 32,
            digits@ == label_digits(gx as nat, gy as nat),
            digits@.len() <= 4,
            count == digits@.len(),
            a.0 == anchor(gx as int, gy as int).0,
            a.1 == anchor(gx as int, gy as int).1,
            labels@ == old(labels)@ + label_at(gx as nat, gy as nat).take(i as int),
        decreases digits@.len() - i,
    {
        labels.push(
            LabelGlyph { x: 2 * a.0 - 9 * count + 18 * (i as i32), y: a.1 + 4, glyph: digits[i] },
        );
        i += 1;
        assert(labels@ =~= old(labels)@ + label_at(gx as nat, gy as nat).take(i as int));
    }
    assert(label_at(gx as nat, gy as nat).take(i as int) =~= label_at(gx as nat, gy as nat));
}

proof fn lemma_two_digits(n: nat)
    requires
        n < 100,
    ensures
        1 <= decimal(n).len() <= 2,
{
    reveal_with_fuel(decimal, 2);
}

impl Scene {
    /// Lays out the world. `fps` is the speed of the idle animation, as the bit
    /// pattern of a float.
    pub fn new(fps: u32) -> (scene: Self)
        ensures
            scene.world@ == Seq::new(1038, |i: int| scene_sprite(i)),
            scene.labels@ == labels_to(1024),
            scene.strips@ == Seq::new(4, |i: int| wolf_strip(i, fps)),
    {
        let mut world: Vec<SceneSprite> = Vec::new();
        let mut labels: Vec<LabelGlyph> = Vec::new();
        let mut gy: u32 = 0;
        while gy < GRID_H
            invariant
                gy <= GRID_H,
                world@.len() == 32 * gy,
                forall|i: int| 0 <= i < world@.len() ==> #[trigger] world@[i] == scene_sprite(i),
                labels@ == labels_to((32 * gy) as nat),
            decreases GRID_H - gy,
        {
            let mut gx: u32 = 0;
            while gx < GRID_W
                invariant
                    gy < GRID_H,
                    gx <= GRID_W,
                    world@.len() == 32 * gy + gx,
                    forall|i: int|
                        0 <= i < world@.len() ==> #[trigger] world@[i] == scene_sprite(i),
                    labels@ == labels_to((32 * gy + gx) as nat),
                decreases GRID_W - gx,
            {
                assert((32 * gy + gx) % 32 == gx && (32 * gy + gx) / 32 == gy as int);
                world.push(place_tile(gx, gy));
                push_label(&mut labels, gx, gy);
                gx += 1;
            }
            gy += 1;
        }
        world.push(place_building(0, 0));
        world.push(place_building(GRID_W / 2 - 1, GRID_H / 2 - 1));
        let mut rng: DemoRng = DemoRng::new(WOLF_SEED);
        let ghost seed = WOLF_SEED | 1;
        let mut w: usize = 0;
        while w < WOLF_COUNT
            invariant
                w <= WOLF_COUNT,
                rng.wf(),
                seed == WOLF_SEED | 1,
                rng.0 == drawn(seed, 4 * w as nat),
                world@.len() == 1026 + w,
                forall|i: int| 0 <= i < world@.len() ==> #[trigger] world@[i] == scene_sprite(i),
            decreases WOLF_COUNT - w,
        {
            let gx: u32 = rng.range(GRID_W);
            assert(rng.0 == drawn(seed, 4 * w as nat + 1));
            let gy: u32 = rng.range(GRID_H);
            assert(rng.0 == drawn(seed, 4 * w as nat + 2));
            let facing: u32 = rng.range(WOLF_FACINGS);
            assert(rng.0 == drawn(seed, 4 * w as nat + 3));
            let stagger: u32 = rng.next_u32();
            assert(rng.0 == drawn(seed, 4 * w as nat + 4));
            world.push(place_wolf(gx, gy, facing, stagger));
            w += 1;
        }
        let mut strips: Vec<FrameStrip> = Vec::new();
        let mut facing: u32 = 0;
        while facing < WOLF_FACINGS
            invariant
                facing <= WOLF_FACINGS,
                strips@ == Seq::new(facing as nat, |i: int| wolf_strip(i, fps)),
            decreases WOLF_FACINGS - facing,
        {
            strips.push(
                FrameStrip::from_grid_row(
                    15,
                    16,
                    9 + facing,
                    0,
                    WOLF_IDLE_FRAME_COUNT,
                    fps,
                    LoopMode::Loop,
                ),
            );
            facing += 1;
            assert(strips@ =~= Seq::new(facing as nat, |i: int| wolf_strip(i, fps)));
        }
        assert(world@ =~= Seq::new(1038, |i: int| scene_sprite(i)));
        Scene { world, labels, strips }
    }
}

/// Extent of the world in pixels.
pub fn world_extent() -> (extent: (u32, u32))
    ensures
        extent.0 == 2 * TILE_H * (GRID_W - 1) + TILE_W,
        extent.1 == TILE_H * (GRID_W + GRID_H - 2) / 2 + TILE_H,
        extent == (2048u32, 1024u32),
{
    (2 * TILE_H * (GRID_W - 1) + TILE_W, TILE_H * (GRID_W + GRID_H - 2) / 2 + TILE_H)
}

proof fn lemma_labels_bound(n: nat)
    requires
        n <= 1024,
    ensures
        labels_to(n).len() <= 4 * n,
    decreases n,
{
    if n > 0 {
        lemma_labels_bound((n - 1) as nat);
        lemma_two_digits(((n - 1) % 32) as nat);
        lemma_two_digits(((n - 1) / 32) as nat);
    }
}

/// Every footprint of the world can be represented, every wolf stands on the
/// grid and faces one of the four ways, and world and labels leave the
/// renderer's memory room to spare.
pub proof fn law_scene_fits(i: int)
    requires
        0 <= i < 1038,
    ensures
        scene_sprite(i).footprint_fits(),
        i >= 1026 ==> {
            &&& 1 <= scene_sprite(i).iso_grid.0 <= 32
            &&& 1 <= scene_sprite(i).iso_grid.1 <= 32
            &&& scene_sprite(i).kind->facing < WOLF_FACINGS
        },
        1038 + labels_to(1024).len() + 16000 <= crate::render::big_buffer::PAIRS_PER_SLOT
            * crate::render::buffer_pair::SPRITES_PER_PAIR,
{
    lemma_labels_bound(1024);
}

/// The text of a number.
pub open spec fn decimal_text(n: nat) -> Seq<char> {
    Seq::new(decimal(n).len(), |i: int| ('0' as u32 + decimal(n)[i]) as char)
}

proof fn lemma_digits_are_digits(n: nat, i: int)
    requires
        0 <= i < decimal(n).len(),
    ensures
        decimal(n)[i] < 10,
    decreases n,
{
    if n >= 10 && i < decimal(n).len() - 1 {
        lemma_digits_are_digits(n / 10, i);
    }
}

proof fn lemma_glyphs_of_digits(text: Seq<char>, digits: Seq<u32>)
    requires
        text.len() == digits.len(),
        forall|i: int| 0 <= i < digits.len() ==> (#[trigger] digits[i]) < 10,
        forall|i: int|
            0 <= i < digits.len() ==> #[trigger] text[i] == ('0' as u32 + digits[i]) as char,
    ensures
        crate::demo::font::glyphs_of(text) == digits,
    decreases text.len(),
{
    if text.len() > 0 {
        lemma_glyphs_of_digits(text.drop_last(), digits.drop_last());
        let last = digits.len() - 1;
        assert(digits[last] < 10);
        assert(text[last] == ('0' as u32 + digits[last]) as char);
        assert(digits.drop_last().push(digits[last]) =~= digits);
    } else {
        assert(digits =~= Seq::empty());
    }
}

/// A label shows the glyphs of the tile's coordinates, written with a comma in
/// between.
pub proof fn law_label_reads_coordinates(gx: nat, gy: nat)
    ensures
        crate::demo::font::glyphs_of(
            decimal_text(gx) + seq![','] + decimal_text(gy),
        ) == label_digits(gx, gy),
{
    assert forall|i: int| 0 <= i < decimal(gx).len() implies (#[trigger] decimal(gx)[i]) < 10 by {
        lemma_digits_are_digits(gx, i);
    }
    assert forall|i: int| 0 <= i < decimal(gy).len() implies (#[trigger] decimal(gy)[i]) < 10 by {
        lemma_digits_are_digits(gy, i);
    }
    lemma_glyphs_of_digits(decimal_text(gx), decimal(gx));
    lemma_glyphs_of_digits(decimal_text(gy), decimal(gy));
    let comma = seq![','];
    crate::demo::font::law_emit_chains(decimal_text(gx), comma);
    crate::demo::font::law_emit_chains(decimal_text(gx) + comma, decimal_text(gy));
    assert(comma.drop_last() =~= Seq::empty());
    assert(crate::demo::font::glyphs_of(Seq::empty()) =~= Seq::empty());
    assert(crate::demo::font::glyphs_of(comma) =~= Seq::empty());
    assert(decimal(gx) + Seq::empty() =~= decimal(gx));
}

/// Every tile lies on its own cell, and the cells go row by row. The corners of
/// its picture are the projected corners of the cell: left the one of the next
/// cell in y, right that of the next in x, below that of the next in both.
/// Colours alternate as on a chessboard.
pub proof fn law_tile_lies_on_its_cell(i: int)
    requires
        0 <= i < 1024,
    ensures
        ({
            let s = scene_sprite(i);
            let gx = s.iso_grid.0 as int;
            let gy = s.iso_grid.1 as int;
            &&& gx == i % 32
            &&& gy == i / 32
            &&& s.pos.0 == 32 * (gx - gy) - 32
            &&& s.pos.1 == 16 * (gx + gy)
            &&& s.pos.0 == 32 * (gx - (gy + 1))
            &&& s.pos.0 + s.size.0 == 32 * ((gx + 1) - gy)
            &&& s.pos.1 + s.size.1 == 16 * ((gx + 1) + (gy + 1))
            &&& s.size == (64u32, 32u32)
            &&& s.iso_grid_size == (1i32, 1i32)
            &&& s.mesh_idx == 0
            &&& s.kind is Tile
            &&& s.kind->bright <==> (gx + gy) % 2 == 0
        }),
{
}

/// A building covers two by two cells. Its picture stands on the projected
/// corners of its footprint, left, right and front, and rises 48 pixels above the
/// back one. One stands in the back corner of the world, one in its middle.
pub proof fn law_building_stands_on_its_footprint(i: int)
    requires
        1024 <= i < 1026,
    ensures
        ({
            let s = scene_sprite(i);
            let gx = s.iso_grid.0 as int;
            let gy = s.iso_grid.1 as int;
            &&& i == 1024 ==> gx == 2 && gy == 2
            &&& i == 1025 ==> gx == 17 && gy == 17
            &&& s.iso_grid_size == (2i32, 2i32)
            &&& s.pos.0 == 32 * ((gx - 2) - gy)
            &&& s.pos.0 + s.size.0 == 32 * (gx - (gy - 2))
            &&& s.pos.1 + s.size.1 == 16 * (gx + gy)
            &&& s.pos.1 + 48 == 16 * ((gx - 2) + (gy - 2))
            &&& s.size == (128u32, 112u32)
            &&& s.mesh_idx == 1
            &&& s.kind is Building
        }),
{
}

/// A wolf is 64 pixels wide and high, and stands in the middle of its cell: its
/// picture is centred on the cell and ends 16 pixels above the cell's front
/// corner. Cell, facing and stagger are four numbers of the generator in a row,
/// from the seed on.
pub proof fn law_wolf_stands_on_its_cell(i: int)
    requires
        1026 <= i < 1038,
    ensures
        ({
            let s = scene_sprite(i);
            let cx = s.iso_grid.0 - 1;
            let cy = s.iso_grid.1 - 1;
            let seed = 0xC0FFEFu32;
            let k = (4 * (i - 1026)) as nat;
            &&& cx == drawn(seed, k + 1) % 32
            &&& cy == drawn(seed, k + 2) % 32
            &&& 0 <= cx < 32
            &&& 0 <= cy < 32
            &&& s.kind is Wolf
            &&& s.kind->facing == drawn(seed, k + 3) % 4
            &&& s.kind->stagger == drawn(seed, k + 4)
            &&& s.iso_grid_size == (1i32, 1i32)
            &&& 2 * s.pos.0 + s.size.0 == 2 * (32 * (cx - cy))
            &&& s.pos.1 + s.size.1 == 16 * ((cx + 1) + (cy + 1)) + 16
            &&& s.size == (64u32, 64u32)
            &&& s.mesh_idx == 3
        }),
{
    assert(0xC0FFEEu32 | 1 == 0xC0FFEFu32) by (bit_vector);
}

/// A building is drawn over the four tiles that it stands on, and a wolf over the
/// tile that it stands on, whatever numbers the sorter gives them.
pub proof fn law_things_stand_in_front_of_their_tiles(i: int, t: int, dx: int, dy: int)
    requires
        1024 <= i < 1038,
        0 <= t < 1024,
        0 <= dx < scene_sprite(i).iso_grid_size.0,
        0 <= dy < scene_sprite(i).iso_grid_size.1,
        t % 32 == scene_sprite(i).iso_grid.0 - scene_sprite(i).iso_grid_size.0 + dx,
        t / 32 == scene_sprite(i).iso_grid.1 - scene_sprite(i).iso_grid_size.1 + dy,
    ensures
        forall|thing: IsoBounds, tile: IsoBounds|
            #![trigger behind(tile, thing)]
            thing == (IsoBounds { index: thing.index, ..scene_sprite(i).footprint() }) && tile == (
            IsoBounds { index: tile.index, ..scene_sprite(t).footprint() }) ==> behind(tile, thing),
{
}

/// The number that a row of digits stands for.
pub open spec fn number_of(digits: Seq<u32>) -> int
    decreases digits.len(),
{
    if digits.len() == 0 {
        0
    } else {
        10 * number_of(digits.drop_last()) + digits.last()
    }
}

/// The digits of a number stand for it, and there is no zero in front of them.
pub proof fn law_decimal_reads_back(n: nat)
    ensures
        number_of(decimal(n)) == n,
        decimal(n).len() >= 1,
        decimal(n).len() == 1 <==> n < 10,
        n >= 10 ==> decimal(n)[0] != 0,
        forall|i: int| 0 <= i < decimal(n).len() ==> (#[trigger] decimal(n)[i]) < 10,
    decreases n,
{
    reveal_with_fuel(number_of, 2);
    if n >= 10 {
        law_decimal_reads_back(n / 10);
        assert(decimal(n).drop_last() =~= decimal(n / 10));
    } else {
        assert(decimal(n).drop_last() =~= Seq::<u32>::empty());
    }
    assert forall|i: int| 0 <= i < decimal(n).len() implies (#[trigger] decimal(n)[i]) < 10 by {
        lemma_digits_are_digits(n, i);
    }
}

/// The digits that a label shows, from left to right.
pub open spec fn label_glyphs(label: Seq<LabelGlyph>) -> Seq<u32> {
    Seq::new(label.len(), |i: int| label[i].glyph)
}

/// A label shows the tile's x, then its y, in as many digits as they have. Its
/// glyphs are 9 pixels apart, on one line four pixels below the upper corner of
/// the tile, and the label is centred on that corner.
pub proof fn law_label_is_centred_on_its_tile(gx: nat, gy: nat, i: int)
    requires
        gx < 32,
        gy < 32,
        0 <= i < label_at(gx, gy).len(),
    ensures
        ({
            let label = label_at(gx, gy);
            let n = label.len() as int;
            let of_x: int = if gx < 10 {
                1
            } else {
                2
            };
            let of_y: int = if gy < 10 {
                1
            } else {
                2
            };
            &&& n == of_x + of_y
            &&& number_of(label_glyphs(label).take(of_x)) == gx
            &&& number_of(label_glyphs(label).skip(of_x)) == gy
            &&& label[i].y == 16 * (gx + gy) + 4
            &&& i + 1 < n ==> label[i + 1].x - label[i].x == 2 * 9
            &&& label[0].x + (label[n - 1].x + 2 * 9) == 2 * (2 * (32 * (gx - gy)))
        }),
{
    lemma_two_digits(gx);
    lemma_two_digits(gy);
    law_decimal_reads_back(gx);
    law_decimal_reads_back(gy);
    reveal_with_fuel(decimal, 3);
    let label = label_at(gx, gy);
    let of_x = decimal(gx).len() as int;
    assert(label_glyphs(label).take(of_x) =~= decimal(gx));
    assert(label_glyphs(label).skip(of_x) =~= decimal(gy));
}

/// Every tile has its label, in the order of the tiles: the labels of `n + 1` tiles
/// are those of `n` tiles and then that of tile `n`.
pub proof fn law_labels_follow_tiles(n: nat)
    requires
        n < 1024,
    ensures
        labels_to(0).len() == 0,
        labels_to(n + 1) == labels_to(n) + label_at(
            scene_sprite(n as int).iso_grid.0 as nat,
            scene_sprite(n as int).iso_grid.1 as nat,
        ),
{
}

/// The idle strips: two frames in the first two columns of rows 9 to 12 of a
/// sheet of 15 by 16 cells, played in a loop.
pub proof fn law_idle_strips_lie_in_the_sheet(facing: int, fps: u32)
    requires
        0 <= facing < 4,
    ensures
        ({
            let strip = wolf_strip(facing, fps);
            &&& strip.wf()
            &&& strip.row == 9 + facing
            &&& strip.col0 == 0
            &&& strip.frame_count == 2
            &&& strip.atlas_cells_x == 15
            &&& strip.atlas_cells_y == 16
            &&& strip.fps == fps
            &&& strip.loop_mode is Loop
        }),
{
}

/// A footprint ends at the sprite's grid point and reaches back by the sprite's size,
/// in x and y alike.
pub proof fn law_scene_footprint_ends_at_grid_point(s: SceneSprite)
    requires
        s.footprint_fits(),
    ensures
        s.footprint().iso_x2 == s.iso_grid.0,
        s.footprint().iso_y2 == s.iso_grid.1,
        s.footprint().iso_x1 + s.iso_grid_size.0 == s.iso_grid.0,
        s.footprint().iso_y1 + s.iso_grid_size.1 == s.iso_grid.1,
{
}

/// The tiles fill the world and do not leave it: it is 2048 pixels wide, from 1024 left
/// of the origin on, and 1024 pixels high, and its outermost tiles touch its edges.
pub proof fn law_world_holds_its_tiles(i: int)
    requires
        0 <= i < 1024,
    ensures
        -1024 <= scene_sprite(i).pos.0,
        scene_sprite(i).pos.0 + scene_sprite(i).size.0 <= -1024 + 2048,
        0 <= scene_sprite(i).pos.1,
        scene_sprite(i).pos.1 + scene_sprite(i).size.1 <= 1024,
        scene_sprite(992).pos.0 == -1024,
        scene_sprite(31).pos.0 + scene_sprite(31).size.0 == 1024,
        scene_sprite(0).pos.1 == 0,
        scene_sprite(1023).pos.1 + scene_sprite(1023).size.1 == 1024,
{
}

/// Everything in the world stands on a square.
pub proof fn law_world_stands_on_squares(i: int)
    requires
        0 <= i < 1038,
    ensures
        scene_sprite(i).footprint().iso_x2 - scene_sprite(i).footprint().iso_x1 == scene_sprite(
            i,
        ).footprint().iso_y2 - scene_sprite(i).footprint().iso_y1,
        scene_sprite(i).iso_grid_size.0 > 0,
{
}

} // verus!
