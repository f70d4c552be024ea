use exey_engine::engine::sort_world;
use exey_engine::render::sort::iso_rect::lower_bound_by_depth;
use exey_engine::render::sort::{
    depth_compare, ISorter, IsoBounds, IsoSortable, IsometricRectangleSorter,
};
use exey_engine::Sprite;

fn position(order: &[u32], sprite: u32) -> usize {
    order.iter().position(|&s| s == sprite).unwrap()
}

#[test]
fn disjoint_pair() {
    let mut s = IsometricRectangleSorter::new();
    let bounds = vec![
        IsoBounds::from_grid((0, 0), (1, 1)),
        IsoBounds::from_grid((5, 5), (1, 1)),
    ];
    let order = s.sort(&bounds);
    assert_eq!(order.len(), 2);
    let mut sorted = order.clone();
    sorted.sort();
    assert_eq!(sorted, vec![0, 1]);
}

#[test]
fn two_overlapping_tiles_in_a_diagonal_line() {
    let mut s = IsometricRectangleSorter::new();
    let bounds = vec![
        IsoBounds::from_grid((0, 0), (1, 1)),
        IsoBounds::from_grid((1, 1), (1, 1)),
    ];
    let order = s.sort(&bounds);
    assert_eq!(order, vec![0, 1]);
}

#[test]
fn building_then_front_tile() {
    let mut s = IsometricRectangleSorter::new();
    let bounds = vec![
        IsoBounds::from_grid((1, 1), (2, 2)),
        IsoBounds::from_grid((2, 2), (1, 1)),
    ];
    let order = s.sort(&bounds);
    assert_eq!(order, vec![0, 1], "building (idx 0) must render before front tile (idx 1)");
}

#[test]
fn building_then_front_tile_reversed_input() {
    let mut s = IsometricRectangleSorter::new();
    let bounds = vec![
        IsoBounds::from_grid((2, 2), (1, 1)),
        IsoBounds::from_grid((1, 1), (2, 2)),
    ];
    let order = s.sort(&bounds);
    assert_eq!(order, vec![1, 0]);
}

#[test]
fn diagonal_row_of_three() {
    let mut s = IsometricRectangleSorter::new();
    let bounds = vec![
        IsoBounds::from_grid((0, 0), (1, 1)),
        IsoBounds::from_grid((1, 1), (1, 1)),
        IsoBounds::from_grid((2, 2), (1, 1)),
    ];
    let order = s.sort(&bounds);
    assert_eq!(order, vec![0, 1, 2]);
}

#[test]
fn no_sprites_no_order() {
    let mut s = IsometricRectangleSorter::default();
    assert_eq!(s.sort(&[]), Vec::<u32>::new());
}

#[test]
fn bounds_span_the_screen() {
    let b = IsoBounds::from_grid((5, 3), (2, 1));
    assert_eq!((b.iso_x1, b.iso_y1, b.iso_x2, b.iso_y2, b.index), (3, 2, 5, 3, 0));
    assert_eq!(b.iso_left(), 0);
    assert_eq!(b.iso_right(), 3);
}

#[test]
fn extreme_bounds_do_not_overflow() {
    let b = IsoBounds { iso_x1: i32::MIN, iso_y1: i32::MIN, iso_x2: i32::MAX, iso_y2: i32::MAX, index: 0 };
    assert_eq!(b.iso_left(), i32::MIN as i64 - i32::MAX as i64);
    assert_eq!(b.iso_right(), i32::MAX as i64 - i32::MIN as i64);
    assert_eq!(depth_compare(&b, &b), 0);
}

#[test]
fn depth_compare_signs() {
    let back = IsoBounds::from_grid((1, 1), (1, 1));
    let front = IsoBounds::from_grid((2, 2), (1, 1));
    assert_eq!(depth_compare(&front, &back), 1);
    assert_eq!(depth_compare(&back, &front), -1);
    assert_eq!(depth_compare(&back, &back), 0);
}

#[test]
fn depth_compare_breaks_ties_by_index() {
    let mut a = IsoBounds::from_grid((1, 1), (1, 1));
    let mut b = a;
    a.index = 0;
    b.index = 1;
    assert_eq!(depth_compare(&a, &b), -1);
    assert_eq!(depth_compare(&b, &a), 1);
}

#[test]
fn equal_footprints_keep_their_input_order() {
    let mut s = IsometricRectangleSorter::new();
    let tile = IsoBounds::from_grid((3, 3), (1, 1));
    assert_eq!(s.sort(&[tile, tile]), vec![0, 1]);
    let back = IsoBounds::from_grid((2, 2), (1, 1));
    assert_eq!(s.sort(&[tile, back, tile, tile, back]), vec![1, 4, 0, 2, 3]);
}

#[test]
fn the_order_depends_on_corners_alone() {
    let mut used = IsometricRectangleSorter::new();
    let mut bounds = vec![
        IsoBounds::from_grid((4, 2), (2, 1)),
        IsoBounds::from_grid((3, 3), (1, 1)),
        IsoBounds::from_grid((3, 3), (1, 1)),
        IsoBounds::from_grid((1, 2), (1, 2)),
    ];
    let order = used.sort(&bounds);
    for (i, b) in bounds.iter_mut().enumerate() {
        b.index = 40 - i as u32;
    }
    assert_eq!(used.sort(&bounds), order);
    assert_eq!(IsometricRectangleSorter::new().sort(&bounds), order);
}

#[test]
fn lower_bound_finds_the_slot() {
    let list = vec![
        IsoBounds::from_grid((1, 1), (1, 1)),
        IsoBounds::from_grid((2, 2), (1, 1)),
        IsoBounds::from_grid((4, 4), (1, 1)),
    ];
    let behind_all = IsoBounds::from_grid((0, 0), (1, 1));
    let between = IsoBounds::from_grid((3, 3), (1, 1));
    let before_all = IsoBounds::from_grid((9, 9), (1, 1));
    assert_eq!(lower_bound_by_depth(&list, &behind_all), 0);
    assert_eq!(lower_bound_by_depth(&list, &between), 2);
    assert_eq!(lower_bound_by_depth(&list, &before_all), 3);
    assert_eq!(lower_bound_by_depth(&[], &between), 0);
}

#[test]
fn sweep_links_depth_neighbours() {
    let mut s = IsometricRectangleSorter::new();
    let mut by_left = vec![
        IsoBounds::from_grid((0, 0), (1, 1)),
        IsoBounds::from_grid((2, 2), (1, 1)),
        IsoBounds::from_grid((1, 1), (1, 1)),
    ];
    for (i, b) in by_left.iter_mut().enumerate() {
        b.index = i as u32;
    }
    let graph = s.build_graph(&by_left);
    // 0 and 1 are linked first; 2 then goes between them.
    assert_eq!(graph.edges[0], vec![1, 2]);
    assert_eq!(graph.edges[1], Vec::<u32>::new());
    assert_eq!(graph.edges[2], vec![1]);
    assert!(graph.edge_count() <= 2 * by_left.len());
}

#[test]
fn passed_footprints_get_no_links() {
    let mut s = IsometricRectangleSorter::new();
    let mut by_left = vec![
        IsoBounds::from_grid((0, 5), (1, 1)),
        IsoBounds::from_grid((5, 0), (1, 1)),
    ];
    by_left[1].index = 1;
    let graph = s.build_graph(&by_left);
    assert_eq!(graph.edge_count(), 0);
}

#[test]
fn disjoint_footprints_come_out_back_to_front() {
    // A wall of width 4, tiles behind it and in front of it, in mixed order.
    let bounds = vec![
        IsoBounds::from_grid((6, 9), (1, 1)),
        IsoBounds::from_grid((8, 5), (4, 1)),
        IsoBounds::from_grid((6, 3), (1, 1)),
        IsoBounds::from_grid((9, 6), (1, 1)),
        IsoBounds::from_grid((4, 4), (1, 1)),
        IsoBounds::from_grid((8, 8), (2, 2)),
    ];
    let mut s = IsometricRectangleSorter::new();
    let order = s.sort(&bounds);
    for u in 0..bounds.len() {
        for v in 0..bounds.len() {
            let (mut a, mut b) = (bounds[u], bounds[v]);
            a.index = u as u32;
            b.index = v as u32;
            let overlap = a.iso_left() < b.iso_right() && b.iso_left() < a.iso_right();
            if u != v && overlap && depth_compare(&a, &b) < 0 {
                assert!(position(&order, u as u32) < position(&order, v as u32));
            }
        }
    }
}

#[test]
fn equal_squares_come_out_back_to_front() {
    let mut bounds = Vec::new();
    for i in 0..40i32 {
        bounds.push(IsoBounds::from_grid(((i * 7) % 13, (i * 5) % 11), (2, 2)));
    }
    let mut s = IsometricRectangleSorter::new();
    let order = s.sort(&bounds);
    let mut seen = order.clone();
    seen.sort();
    assert_eq!(seen, (0..40u32).collect::<Vec<u32>>());
    for u in 0..bounds.len() {
        for v in 0..bounds.len() {
            let (mut a, mut b) = (bounds[u], bounds[v]);
            a.index = u as u32;
            b.index = v as u32;
            let overlap = a.iso_left() < b.iso_right() && b.iso_left() < a.iso_right();
            if u != v && overlap && depth_compare(&a, &b) < 0 {
                assert!(position(&order, u as u32) < position(&order, v as u32));
            }
        }
    }
}

#[test]
fn contradicting_depths_still_give_every_sprite_once() {
    // Long thin footprints that overlap in area, each behind the next.
    let bounds = vec![
        IsoBounds { iso_x1: 0, iso_y1: 4, iso_x2: 10, iso_y2: 5, index: 0 },
        IsoBounds { iso_x1: 4, iso_y1: 0, iso_x2: 5, iso_y2: 10, index: 0 },
        IsoBounds { iso_x1: 2, iso_y1: 2, iso_x2: 7, iso_y2: 7, index: 0 },
    ];
    let mut s = IsometricRectangleSorter::new();
    let mut order = s.sort(&bounds);
    order.sort();
    assert_eq!(order, vec![0, 1, 2]);
}

#[test]
fn a_sorter_can_be_used_again() {
    let mut s = IsometricRectangleSorter::new();
    let many = vec![
        IsoBounds::from_grid((2, 2), (1, 1)),
        IsoBounds::from_grid((1, 1), (1, 1)),
        IsoBounds::from_grid((0, 0), (1, 1)),
    ];
    assert_eq!(s.sort(&many), vec![2, 1, 0]);
    assert_eq!(s.sort(&many[0..2]), vec![1, 0]);
    assert_eq!(s.sort(&many), vec![2, 1, 0]);
}

#[test]
fn the_world_is_sorted_by_footprint() {
    let mut tile = Sprite::new([0, 0], [0, 0], [0, 0], [0, 0, 0, 0]);
    tile.iso_grid = (2, 2);
    tile.iso_grid_size = (1, 1);
    let mut building = tile;
    building.iso_grid = (1, 1);
    building.iso_grid_size = (2, 2);
    assert_eq!(building.iso_bounds(), IsoBounds::from_grid((1, 1), (2, 2)));
    let mut s = IsometricRectangleSorter::new();
    assert_eq!(sort_world(&mut s, &[tile, building]), vec![1, 0]);
    assert_eq!(sort_world::<Sprite>(&mut s, &[]), Vec::<u32>::new());
}

#[test]
fn of_two_sprites_one_lies_behind() {
    let back = IsoBounds::from_grid((1, 1), (1, 1));
    let mut front = IsoBounds::from_grid((2, 2), (1, 1));
    front.index = 1;
    let there = depth_compare(&back, &front);
    let back_again = depth_compare(&front, &back);
    assert!(there != 0);
    assert_eq!(there.signum(), -back_again.signum());
}
