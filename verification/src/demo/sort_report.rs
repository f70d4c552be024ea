//! A report on the draw order around the buildings.

use vstd::prelude::*;

use crate::demo::scene::{GRID_H, GRID_W, MESH_BUILDING};
use crate::render::sort::iso_rect::{
    behind, depth_compare, front_gap, front_gap_of, IsoBounds,
};

verus! {

/// What the report needs to know of a sprite.
#[derive(Clone, Copy, Debug)]
pub struct ReportSprite {
    pub mesh_idx: u8,
    pub bounds: IsoBounds,
}

/// The building against another sprite.
#[derive(Clone, Copy, Debug, PartialEq, Eq, Structural)]
pub struct Comparison {
    /// Positive if the building lies in front.
    pub sign: i32,
    /// How far the building lies in front of the other, and the other way.
    pub a_term: i64,
    pub b_term: i64,
}

/// The comparison of a building with another sprite.
pub open spec fn compared(building: IsoBounds, other: IsoBounds) -> Comparison {
    Comparison {
        sign: if behind(building, other) {
            -1i32
        } else if behind(other, building) {
            1
        } else {
            0
        },
        a_term: front_gap(building, other) as i64,
        b_term: front_gap(other, building) as i64,
    }
}

/// A sprite close to a building in draw order.
#[derive(Clone, Copy, Debug, PartialEq, Eq, Structural)]
pub struct NeighbourLine {
    pub rank: usize,
    pub sprite: u32,
    /// Whether it is the building itself.
    pub own: bool,
    pub mesh_idx: u8,
    /// Grid position: the front corner.
    pub grid_x: i32,
    pub grid_y: i32,
    /// Ends of the covered screen range.
    pub left: i64,
    pub right: i64,
    pub comparison: Comparison,
}

/// Where a tile lies relative to a building.
#[derive(Clone, Copy, Debug, PartialEq, Eq, Structural)]
pub enum TilePlace {
    BackCorner,
    FootprintFrontX,
    FootprintFrontY,
    FootprintFront,
    SideLeftX,
    SideLeftY,
    SideRightX,
    SideRightY,
    DiagonalFront,
}

/// Which of the two should lie in front.
#[derive(Clone, Copy, Debug, PartialEq, Eq, Structural)]
pub enum Expected {
    BuildingInFront,
    TileInFront,
    Open,
}

/// What is expected of a place.
pub open spec fn expected_at(place: TilePlace) -> Expected {
    match place {
        TilePlace::FootprintFrontX => Expected::BuildingInFront,
        TilePlace::FootprintFrontY => Expected::BuildingInFront,
        TilePlace::FootprintFront => Expected::BuildingInFront,
        TilePlace::BackCorner => Expected::Open,
        _ => Expected::TileInFront,
    }
}

/// The place with number `k`, and its offset from the back corner.
pub open spec fn place_number(k: int) -> (TilePlace, int, int) {
    if k == 0 {
        (TilePlace::BackCorner, 0, 0)
    } else if k == 1 {
        (TilePlace::FootprintFrontX, 1, 0)
    } else if k == 2 {
        (TilePlace::FootprintFrontY, 0, 1)
    } else if k == 3 {
        (TilePlace::FootprintFront, 1, 1)
    } else if k == 4 {
        (TilePlace::SideLeftX, -1, 0)
    } else if k == 5 {
        (TilePlace::SideLeftY, 0, -1)
    } else if k == 6 {
        (TilePlace::SideRightX, 2, 0)
    } else if k == 7 {
        (TilePlace::SideRightY, 0, 2)
    } else {
        (TilePlace::DiagonalFront, 2, 2)
    }
}

/// A tile at or beside a building.
#[derive(Clone, Copy, Debug, PartialEq, Eq, Structural)]
pub struct TileLine {
    pub tx: u32,
    pub ty: u32,
    pub rank: usize,
    pub place: TilePlace,
    pub comparison: Comparison,
    pub expected: Expected,
}

/// Where a building stands.
#[derive(Clone, Copy, Debug, PartialEq, Eq, Structural)]
pub struct ExtentLine {
    /// Grid position: the front corner.
    pub grid_x: i32,
    pub grid_y: i32,
    /// Size of the footprint.
    pub size_x: i64,
    pub size_y: i64,
    /// Both corners.
    pub bounds: IsoBounds,
    /// Ends of the covered screen range.
    pub left: i64,
    pub right: i64,
}

/// Where a building with the given footprint stands.
pub open spec fn extent_line(building: IsoBounds) -> ExtentLine {
    ExtentLine {
        grid_x: building.iso_x2,
        grid_y: building.iso_y2,
        size_x: (building.iso_x2 - building.iso_x1) as i64,
        size_y: (building.iso_y2 - building.iso_y1) as i64,
        bounds: building,
        left: building.left() as i64,
        right: building.right() as i64,
    }
}

/// The report on one building.
pub struct BuildingReport {
    pub sprite: u32,
    pub rank: usize,
    pub extent: ExtentLine,
    pub neighbours: Vec<NeighbourLine>,
    pub tiles: Vec<TileLine>,
}

/// [`BuildingReport`] as mathematics.
#[verifier::ext_equal]
pub struct ReportModel {
    pub sprite: u32,
    pub rank: usize,
    pub extent: ExtentLine,
    pub neighbours: Seq<NeighbourLine>,
    pub tiles: Seq<TileLine>,
}

impl View for BuildingReport {
    type V = ReportModel;

    open spec fn view(&self) -> ReportModel {
        ReportModel {
            sprite: self.sprite,
            rank: self.rank,
            extent: self.extent,
            neighbours: self.neighbours@,
            tiles: self.tiles@,
        }
    }
}

/// The last rank below `upto` at which a sprite stands; zero if there is none.
pub open spec fn rank_below(order: Seq<u32>, sprite: int, upto: nat) -> nat
    decreases upto,
{
    if upto == 0 {
        0
    } else if order[upto - 1] == sprite {
        (upto - 1) as nat
    } else {
        rank_below(order, sprite, (upto - 1) as nat)
    }
}

/// First and last rank of the neighbours: ten to either side.
pub open spec fn window(rank: int, len: int) -> (int, int) {
    (if rank < 10 {
        0
    } else {
        rank - 10
    }, if rank + 11 < len {
        rank + 11
    } else {
        len
    })
}

/// The line on the sprite that stands at rank `at`, close to the building at
/// `rank`.
pub open spec fn neighbour_line(
    building: IsoBounds,
    other: ReportSprite,
    sprite: u32,
    at: int,
    rank: int,
) -> NeighbourLine {
    NeighbourLine {
        rank: at as usize,
        sprite,
        own: at == rank,
        mesh_idx: other.mesh_idx,
        grid_x: other.bounds.iso_x2,
        grid_y: other.bounds.iso_y2,
        left: other.bounds.left() as i64,
        right: other.bounds.right() as i64,
        comparison: compared(building, other.bounds),
    }
}

/// The neighbours of the building at `rank`.
pub open spec fn neighbour_lines(
    order: Seq<u32>,
    world: Seq<ReportSprite>,
    rank: int,
) -> Seq<NeighbourLine> {
    let (lo, hi) = window(rank, order.len() as int);
    let building = world[order[rank] as int].bounds;
    Seq::new(
        (hi - lo) as nat,
        |i: int| neighbour_line(building, world[order[lo + i] as int], order[lo + i], lo + i, rank),
    )
}

/// The tile at place number `k` of a building is on the grid.
pub open spec fn on_grid(building: IsoBounds, k: int) -> bool {
    &&& 0 <= building.iso_x1 + place_number(k).1 < GRID_W
    &&& 0 <= building.iso_y1 + place_number(k).2 < GRID_H
}

/// The sprite that is the tile at place number `k` of a building.
pub open spec fn tile_at(building: IsoBounds, k: int) -> int {
    (building.iso_y1 + place_number(k).2) * GRID_W + building.iso_x1 + place_number(k).1
}

/// The tiles at and beside a building exist where they are on the grid.
pub open spec fn tiles_exist(building: IsoBounds, sprites: nat) -> bool {
    forall|k: int| 0 <= k < 9 && #[trigger] on_grid(building, k) ==> tile_at(building, k) < sprites
}

/// The tiles at the first `k` places that lie on the grid.
pub open spec fn tile_lines(
    order: Seq<u32>,
    world: Seq<ReportSprite>,
    building: IsoBounds,
    k: nat,
) -> Seq<TileLine>
    decreases k,
{
    if k == 0 {
        Seq::empty()
    } else {
        let rest = tile_lines(order, world, building, (k - 1) as nat);
        let (place, dx, dy) = place_number(k - 1);
        let tx = building.iso_x1 + dx;
        let ty = building.iso_y1 + dy;
        if on_grid(building, k - 1) {
            let tile = tile_at(building, k - 1);
            rest.push(
                TileLine {
                    tx: tx as u32,
                    ty: ty as u32,
                    rank: rank_below(order, tile, order.len()) as usize,
                    place,
                    comparison: compared(building, world[tile].bounds),
                    expected: expected_at(place),
                },
            )
        } else {
            rest
        }
    }
}

/// The reports on the buildings among the first `upto` ranks.
pub open spec fn reports_to(
    order: Seq<u32>,
    world: Seq<ReportSprite>,
    upto: nat,
) -> Seq<ReportModel>
    decreases upto,
{
    if upto == 0 {
        Seq::empty()
    } else {
        let rest = reports_to(order, world, (upto - 1) as nat);
        let sprite = order[upto - 1];
        if world[sprite as int].mesh_idx == MESH_BUILDING {
            rest.push(
                ReportModel {
                    sprite,
                    rank: (upto - 1) as usize,
                    extent: extent_line(world[sprite as int].bounds),
                    neighbours: neighbour_lines(order, world, upto - 1),
                    tiles: tile_lines(order, world, world[sprite as int].bounds, 9),
                },
            )
        } else {
            rest
        }
    }
}

/// The models of a row of reports.
pub open spec fn models(reports: Seq<BuildingReport>) -> Seq<ReportModel> {
    Seq::new(reports.len(), |i: int| reports[i]@)
}

fn compare(building: &IsoBounds, other: &IsoBounds) -> (c: Comparison)
    ensures
        c == compared(*building, *other),
{
    Comparison {
        sign: depth_compare(building, other),
        a_term: front_gap_of(building, other),
        b_term: front_gap_of(other, building),
    }
}

fn extent_of(building: &IsoBounds) -> (line: ExtentLine)
    ensures
        line == extent_line(*building),
{
    ExtentLine {
        grid_x: building.iso_x2,
        grid_y: building.iso_y2,
        size_x: building.iso_x2 as i64 - building.iso_x1 as i64,
        size_y: building.iso_y2 as i64 - building.iso_y1 as i64,
        bounds: *building,
        left: building.iso_left(),
        right: building.iso_right(),
    }
}

fn place_of(k: usize) -> (p: (TilePlace, i64, i64))
    requires
        k < 9,
    ensures
        p.0 == place_number(k as int).0,
        p.1 == place_number(k as int).1,
        p.2 == place_number(k as int).2,
{
    match k {
        0 => (TilePlace::BackCorner, 0, 0),
        1 => (TilePlace::FootprintFrontX, 1, 0),
        2 => (TilePlace::FootprintFrontY, 0, 1),
        3 => (TilePlace::FootprintFront, 1, 1),
        4 => (TilePlace::SideLeftX, -1, 0),
        5 => (TilePlace::SideLeftY, 0, -1),
        6 => (TilePlace::SideRightX, 2, 0),
        7 => (TilePlace::SideRightY, 0, 2),
        _ => (TilePlace::DiagonalFront, 2, 2),
    }
}

fn expectation(place: TilePlace) -> (e: Expected)
    ensures
        e == expected_at(place),
{
    match place {
        TilePlace::FootprintFrontX => Expected::BuildingInFront,
        TilePlace::FootprintFrontY => Expected::BuildingInFront,
        TilePlace::FootprintFront => Expected::BuildingInFront,
        TilePlace::BackCorner => Expected::Open,
        _ => Expected::TileInFront,
    }
}

/// The rank of every sprite.
fn ranks(order: &[u32], sprites: usize) -> (rank_of: Vec<usize>)
    requires
        forall|i: int| 0 <= i < order@.len() ==> (#[trigger] order@[i]) < sprites,
    ensures
        rank_of@.len() == sprites,
        forall|s: int|
            0 <= s < sprites ==> #[trigger] rank_of@[s] == rank_below(order@, s, order@.len()),
{
    let mut rank_of: Vec<usize> = Vec::new();
    let mut s: usize = 0;
    while s < sprites
        invariant
            s <= sprites,
            rank_of@.len() == s,
            forall|t: int| 0 <= t < s ==> #[trigger] rank_of@[t] == 0,
        decreases sprites - s,
    {
        rank_of.push(0);
        s += 1;
    }
    let mut rank: usize = 0;
    while rank < order.len()
        invariant
            rank <= order@.len(),
            rank_of@.len() == sprites,
            forall|i: int| 0 <= i < order@.len() ==> (#[trigger] order@[i]) < sprites,
            forall|t: int|
                0 <= t < sprites ==> #[trigger] rank_of@[t] == rank_below(order@, t, rank as nat),
        decreases order@.len() - rank,
    {
        assert(order@[rank as int] < sprites);
        rank_of.set(order[rank] as usize, rank);
        rank += 1;
    }
    rank_of
}

fn report_neighbours(order: &[u32], world: &[ReportSprite], rank: usize) -> (lines: Vec<
    NeighbourLine,
>)
    requires
        rank < order@.len(),
        forall|i: int| 0 <= i < order@.len() ==> (#[trigger] order@[i]) < world@.len(),
    ensures
        lines@ == neighbour_lines(order@, world@, rank as int),
{
    let building: IsoBounds = world[order[rank] as usize].bounds;
    let lo: usize = if rank < 10 {
        0
    } else {
        rank - 10
    };
    let hi: usize = if order.len() - rank > 11 {
        rank + 11
    } else {
        order.len()
    };
    let mut lines: Vec<NeighbourLine> = Vec::new();
    let mut r: usize = lo;
    while r < hi
        invariant
            lo <= r <= hi <= order@.len(),
            rank < order@.len(),
            (lo as int, hi as int) == window(rank as int, order@.len() as int),
            forall|i: int| 0 <= i < order@.len() ==> (#[trigger] order@[i]) < world@.len(),
            building == world@[order@[rank as int] as int].bounds,
            lines@ == neighbour_lines(order@, world@, rank as int).take(r - lo),
        decreases hi - r,
    {
        let sprite: u32 = order[r];
        let other: ReportSprite = world[sprite as usize];
        lines.push(
            NeighbourLine {
                rank: r,
                sprite,
                own: r == rank,
                mesh_idx: other.mesh_idx,
                grid_x: other.bounds.iso_x2,
                grid_y: other.bounds.iso_y2,
                left: other.bounds.iso_left(),
                right: other.bounds.iso_right(),
                comparison: compare(&building, &other.bounds),
            },
        );
        r += 1;
        assert(lines@ =~= neighbour_lines(order@, world@, rank as int).take(r - lo));
    }
    assert(lines@ =~= neighbour_lines(order@, world@, rank as int));
    lines
}

fn report_tiles(
    order: &[u32],
    world: &[ReportSprite],
    rank_of: &Vec<usize>,
    building: &IsoBounds,
) -> (lines: Vec<TileLine>)
    requires
        tiles_exist(*building, world@.len()),
        rank_of@.len() == world@.len(),
        forall|s: int|
            0 <= s < rank_of@.len() ==> #[trigger] rank_of@[s] == rank_below(
                order@,
                s,
                order@.len(),
            ),
    ensures
        lines@ == tile_lines(order@, world@, *building, 9),
{
    let mut lines: Vec<TileLine> = Vec::new();
    let mut k: usize = 0;
    while k < 9
        invariant
            k <= 9,
            tiles_exist(*building, world@.len()),
            rank_of@.len() == world@.len(),
            forall|s: int|
                0 <= s < rank_of@.len() ==> #[trigger] rank_of@[s] == rank_below(
                    order@,
                    s,
                    order@.len(),
                ),
            lines@ == tile_lines(order@, world@, *building, k as nat),
        decreases 9 - k,
    {
        let (place, dx, dy) = place_of(k);
        let tx: i64 = building.iso_x1 as i64 + dx;
        let ty: i64 = building.iso_y1 as i64 + dy;
        if tx >= 0 && ty >= 0 && tx < GRID_W as i64 && ty < GRID_H as i64 {
            assert(on_grid(*building, k as int));
            let tile: usize = ((ty as u32) * GRID_W + tx as u32) as usize;
            let other: IsoBounds = world[tile].bounds;
            lines.push(
                TileLine {
                    tx: tx as u32,
                    ty: ty as u32,
                    rank: rank_of[tile],
                    place,
                    comparison: compare(building, &other),
                    expected: expectation(place),
                },
            );
        }
        k += 1;
    }
    lines
}

/// Reports on every building, in draw order: where it stands, what is drawn
/// around it, and how it compares with the tiles of its footprint and beside it. The tiles come first
/// among the sprites, row by row.
pub fn log_sort_debug(order: &[u32], world: &[ReportSprite]) -> (reports: Vec<BuildingReport>)
    requires
        forall|i: int| 0 <= i < order@.len() ==> (#[trigger] order@[i]) < world@.len(),
        forall|i: int|
            0 <= i < order@.len() && world@[(#[trigger] order@[i]) as int].mesh_idx
                == MESH_BUILDING ==> tiles_exist(world@[order@[i] as int].bounds, world@.len()),
    ensures
        models(reports@) == reports_to(order@, world@, order@.len()),
{
    let rank_of: Vec<usize> = ranks(order, world.len());
    let mut reports: Vec<BuildingReport> = Vec::new();
    let mut rank: usize = 0;
    assert(models(reports@) =~= Seq::empty());
    while rank < order.len()
        invariant
            rank <= order@.len(),
            forall|i: int| 0 <= i < order@.len() ==> (#[trigger] order@[i]) < world@.len(),
            forall|i: int|
                0 <= i < order@.len() && world@[(#[trigger] order@[i]) as int].mesh_idx
                    == MESH_BUILDING ==> tiles_exist(world@[order@[i] as int].bounds, world@.len()),
            rank_of@.len() == world@.len(),
            forall|s: int|
                0 <= s < rank_of@.len() ==> #[trigger] rank_of@[s] == rank_below(
                    order@,
                    s,
                    order@.len(),
                ),
            models(reports@) == reports_to(order@, world@, rank as nat),
        decreases order@.len() - rank,
    {
        let sprite: u32 = order[rank];
        if world[sprite as usize].mesh_idx == MESH_BUILDING {
            let building: IsoBounds = world[sprite as usize].bounds;
            let ghost before = reports@;
            let report = BuildingReport {
                sprite,
                rank,
                extent: extent_of(&building),
                neighbours: report_neighbours(order, world, rank),
                tiles: report_tiles(order, world, &rank_of, &building),
            };
            reports.push(report);
            assert(models(reports@) =~= models(before).push(report@));
        }
        rank += 1;
    }
    reports
}

/// The two terms of a comparison are how far each lies in front of the other, on
/// the axis on which it does so most, and the sign goes by them: negative where the
/// building lies behind. Where they are even, the smaller number lies behind.
pub proof fn law_comparison_goes_by_its_terms(building: IsoBounds, other: IsoBounds)
    ensures
        ({
            let c = compared(building, other);
            let ax = building.iso_x1 - other.iso_x2;
            let ay = building.iso_y1 - other.iso_y2;
            let bx = other.iso_x1 - building.iso_x2;
            let by = other.iso_y1 - building.iso_y2;
            &&& c.a_term >= ax && c.a_term >= ay && (c.a_term == ax || c.a_term == ay)
            &&& c.b_term >= bx && c.b_term >= by && (c.b_term == bx || c.b_term == by)
            &&& c.a_term < c.b_term ==> c.sign == -1
            &&& c.a_term > c.b_term ==> c.sign == 1
            &&& c.a_term == c.b_term ==> c.sign == if building.index < other.index {
                -1int
            } else if building.index > other.index {
                1int
            } else {
                0int
            }
        }),
{
}

/// The places: first the four cells of the footprint, row by row; then those beside
/// its back corner, those past its two side corners, and the one past its front
/// corner. A building should hide what lies in its footprint, except that the back
/// corner is open, and lie behind everything else.
pub proof fn law_places_lie_round_the_footprint(k: int)
    requires
        0 <= k < 9,
    ensures
        ({
            let (place, dx, dy) = place_number(k);
            let inside = 0 <= dx < 2 && 0 <= dy < 2;
            &&& k < 4 ==> dx == k % 2 && dy == k / 2
            &&& k == 4 ==> dx == -1 && dy == 0
            &&& k == 5 ==> dx == 0 && dy == -1
            &&& k == 6 ==> dx == 2 && dy == 0
            &&& k == 7 ==> dx == 0 && dy == 2
            &&& k == 8 ==> dx == 2 && dy == 2
            &&& place is BackCorner <==> dx == 0 && dy == 0
            &&& place is FootprintFrontX <==> dx == 1 && dy == 0
            &&& place is FootprintFrontY <==> dx == 0 && dy == 1
            &&& place is FootprintFront <==> dx == 1 && dy == 1
            &&& place is SideLeftX <==> dx == -1
            &&& place is SideLeftY <==> dy == -1
            &&& place is SideRightX <==> dx == 2 && dy == 0
            &&& place is SideRightY <==> dx == 0 && dy == 2
            &&& place is DiagonalFront <==> dx == 2 && dy == 2
            &&& expected_at(place) is Open <==> dx == 0 && dy == 0
            &&& expected_at(place) is BuildingInFront <==> inside && !(dx == 0 && dy == 0)
            &&& expected_at(place) is TileInFront <==> !inside
        }),
{
}

/// The extent of a building: its front corner, and its sizes back from there.
pub proof fn law_extent_reads_footprint(building: IsoBounds)
    ensures
        ({
            let line = extent_line(building);
            &&& line.bounds == building
            &&& line.grid_x == building.iso_x2
            &&& line.grid_y == building.iso_y2
            &&& line.grid_x - line.size_x == building.iso_x1
            &&& line.grid_y - line.size_y == building.iso_y1
            &&& line.left == building.iso_x1 - building.iso_y2
            &&& line.right == building.iso_x2 - building.iso_y1
        }),
{
}

/// The rank of a sprite is where the order has it, the last place if it has it twice.
pub proof fn law_rank_is_place_in_order(order: Seq<u32>, at: int, upto: nat)
    requires
        0 <= at < upto <= order.len(),
        forall|later: int| at < later < upto ==> #[trigger] order[later] != order[at],
    ensures
        rank_below(order, order[at] as int, upto) == at,
    decreases upto,
{
    if at < upto - 1 {
        law_rank_is_place_in_order(order, at, (upto - 1) as nat);
    }
}

/// A sprite that the order does not have gets rank zero.
pub proof fn law_missing_sprite_has_rank_zero(order: Seq<u32>, sprite: int, upto: nat)
    requires
        upto <= order.len(),
        forall|i: int| 0 <= i < upto ==> #[trigger] order[i] != sprite,
    ensures
        rank_below(order, sprite, upto) == 0,
    decreases upto,
{
    if upto > 0 {
        law_missing_sprite_has_rank_zero(order, sprite, (upto - 1) as nat);
    }
}

/// The neighbours are the ten ranks before the building, its own, and the ten after
/// it, as far as there are any.
pub proof fn law_window_reaches_ten_ranks(rank: int, len: int, at: int)
    requires
        0 <= rank < len,
    ensures
        window(rank, len).0 <= at < window(rank, len).1 <==> 0 <= at < len && rank - 10 <= at
            <= rank + 10,
{
}

/// Each line on a neighbour is about the sprite at its rank: its number, mesh, front
/// corner and screen range, and how the building compares with it.
pub proof fn law_neighbour_lines_follow_ranks(
    order: Seq<u32>,
    world: Seq<ReportSprite>,
    rank: int,
    i: int,
)
    requires
        0 <= rank < order.len() <= usize::MAX,
        0 <= i < neighbour_lines(order, world, rank).len(),
    ensures
        ({
            let lines = neighbour_lines(order, world, rank);
            let line = lines[i];
            let sprite = order[line.rank as int];
            let other = world[sprite as int];
            let first: int = if rank < 10 {
                0
            } else {
                rank - 10
            };
            &&& line.rank == first + i
            &&& line.sprite == sprite
            &&& line.own <==> line.rank == rank
            &&& line.mesh_idx == other.mesh_idx
            &&& line.grid_x == other.bounds.iso_x2
            &&& line.grid_y == other.bounds.iso_y2
            &&& line.left == other.bounds.iso_x1 - other.bounds.iso_y2
            &&& line.right == other.bounds.iso_x2 - other.bounds.iso_y1
            &&& line.comparison == compared(world[order[rank] as int].bounds, other.bounds)
            &&& lines.len() == if rank + 11 < order.len() {
                rank + 11 - first
            } else {
                order.len() - first
            }
        }),
{
}

/// Tiles are numbered row by row, 32 to a row, and only those on the grid of 32 by 32
/// are looked at.
pub proof fn law_tile_numbers_go_row_by_row(building: IsoBounds, k: int)
    ensures
        on_grid(building, k) <==> {
            &&& 0 <= building.iso_x1 + place_number(k).1 < 32
            &&& 0 <= building.iso_y1 + place_number(k).2 < 32
        },
        on_grid(building, k) ==> {
            &&& 0 <= tile_at(building, k) < 1024
            &&& tile_at(building, k) % 32 == building.iso_x1 + place_number(k).1
            &&& tile_at(building, k) / 32 == building.iso_y1 + place_number(k).2
        },
{
}

/// Line `line` is about the tile at place number `p`.
pub open spec fn about_place(
    line: TileLine,
    order: Seq<u32>,
    world: Seq<ReportSprite>,
    building: IsoBounds,
    p: int,
) -> bool {
    let tile = 32 * line.ty + line.tx;
    &&& on_grid(building, p)
    &&& line.tx == building.iso_x1 + place_number(p).1
    &&& line.ty == building.iso_y1 + place_number(p).2
    &&& line.place == place_number(p).0
    &&& line.expected == expected_at(line.place)
    &&& line.comparison == compared(building, world[tile].bounds)
    &&& line.rank == rank_below(order, tile, order.len())
}

/// How many of the first `k` places lie on the grid.
pub open spec fn places_on_grid(building: IsoBounds, k: nat) -> nat {
    Seq::new(k, |p: int| on_grid(building, p)).filter(|on: bool| on).len()
}

/// There is one line for each place on the grid, in the order of the places, and no
/// line for any other.
pub proof fn law_tile_lines_follow_places(
    order: Seq<u32>,
    world: Seq<ReportSprite>,
    building: IsoBounds,
    k: nat,
    p: int,
)
    requires
        0 <= p < k,
        order.len() <= usize::MAX,
    ensures
        tile_lines(order, world, building, k).len() == places_on_grid(building, k),
        on_grid(building, p) ==> {
            &&& places_on_grid(building, p as nat) < tile_lines(order, world, building, k).len()
            &&& about_place(
                tile_lines(order, world, building, k)[places_on_grid(building, p as nat) as int],
                order,
                world,
                building,
                p,
            )
        },
    decreases k,
{
    reveal(Seq::filter);
    let before = (k - 1) as nat;
    let all = Seq::new(k, |q: int| on_grid(building, q));
    let rest = Seq::new(before, |q: int| on_grid(building, q));
    assert(all.drop_last() =~= rest);
    assert(all.last() == on_grid(building, k - 1));
    assert(places_on_grid(building, k) == places_on_grid(building, before) + if on_grid(
        building,
        k - 1,
    ) {
        1nat
    } else {
        0nat
    });
    if before > 0 {
        law_tile_lines_follow_places(order, world, building, before, 0);
    } else {
        assert(rest =~= Seq::empty());
        assert(places_on_grid(building, before) == 0);
        assert(tile_lines(order, world, building, before).len() == 0);
    }
    if p < before {
        law_tile_lines_follow_places(order, world, building, before, p);
    } else if on_grid(building, p) {
        let tile = tile_at(building, p);
        law_rank_is_bounded(order, tile, order.len());
        let tx = building.iso_x1 + place_number(p).1;
        let ty = building.iso_y1 + place_number(p).2;
        assert(tile == 32 * ty + tx);
    }
}

/// A rank lies below the number of ranks that were looked at.
pub proof fn law_rank_is_bounded(order: Seq<u32>, sprite: int, upto: nat)
    ensures
        rank_below(order, sprite, upto) <= upto,
    decreases upto,
{
    if upto > 0 {
        law_rank_is_bounded(order, sprite, (upto - 1) as nat);
    }
}

/// There is one report for each building, that is each sprite with mesh 1, in draw
/// order, and each is about the building at its rank.
pub proof fn law_reports_follow_buildings(
    order: Seq<u32>,
    world: Seq<ReportSprite>,
    upto: nat,
    rank: int,
)
    requires
        0 <= rank < upto <= order.len() <= usize::MAX,
    ensures
        ({
            let reports = reports_to(order, world, upto);
            let at = reports_to(order, world, rank as nat).len();
            let sprite = order[rank];
            let building = world[sprite as int].bounds;
            &&& world[sprite as int].mesh_idx == 1 ==> {
                &&& at < reports.len()
                &&& reports[at as int].sprite == sprite
                &&& reports[at as int].rank == rank
                &&& reports[at as int].extent == extent_line(building)
                &&& reports[at as int].neighbours == neighbour_lines(order, world, rank)
                &&& reports[at as int].tiles == tile_lines(order, world, building, 9)
            }
            &&& world[sprite as int].mesh_idx == 1 ==> reports_to(
                order,
                world,
                (rank + 1) as nat,
            ).len() == at + 1
            &&& world[sprite as int].mesh_idx != 1 ==> reports_to(
                order,
                world,
                (rank + 1) as nat,
            ).len() == at
            &&& reports_to(order, world, 0).len() == 0
        }),
    decreases upto,
{
    if rank + 1 < upto {
        law_reports_follow_buildings(order, world, (upto - 1) as nat, rank);
    }
}

} // verus!
