use graf::grid::{moves_within, DIAG_COST, STRAIGHT_COST};

#[test]
fn moves_from_middle_tile() {
    let m = moves_within(3, 3, 1, 1);
    assert_eq!(
        m,
        vec![
            ((2, 1), STRAIGHT_COST),
            ((2, 2), DIAG_COST),
            ((2, 0), DIAG_COST),
            ((1, 2), STRAIGHT_COST),
            ((1, 0), STRAIGHT_COST),
            ((0, 1), STRAIGHT_COST),
            ((0, 0), DIAG_COST),
            ((0, 2), DIAG_COST),
        ]
    );
}

#[test]
fn moves_from_corner_stay_on_grid() {
    assert_eq!(
        moves_within(3, 2, 0, 0),
        vec![((1, 0), STRAIGHT_COST), ((1, 1), DIAG_COST), ((0, 1), STRAIGHT_COST)]
    );
    assert_eq!(
        moves_within(3, 2, 2, 1),
        vec![((2, 0), STRAIGHT_COST), ((1, 1), STRAIGHT_COST), ((1, 0), DIAG_COST)]
    );
}

#[test]
fn single_tile_has_no_moves() {
    assert!(moves_within(1, 1, 0, 0).is_empty());
    assert!(moves_within(0, 0, 0, 0).is_empty());
}

#[test]
fn diagonal_cost_is_rounded_root_two() {
    let exact = std::f64::consts::SQRT_2 * STRAIGHT_COST as f64;
    assert_eq!(DIAG_COST, exact.round() as u64);
}

use graf::grid::{keep_allowed, GridMap};
use movingai::{MapType, MovingAiMap};

fn small_map() -> MovingAiMap {
    let rows = [".@.", "...", "..."];
    let tiles: Vec<char> = rows.iter().flat_map(|r| r.chars()).collect();
    MovingAiMap::new(MapType::Octile, 3, 3, tiles).unwrap()
}

#[test]
fn keep_allowed_filters_in_order() {
    let moves = moves_within(3, 3, 1, 1);
    let allowed = vec![true, false, false, true, false, false, false, true];
    assert_eq!(
        keep_allowed(&moves, &allowed),
        vec![((2, 1), STRAIGHT_COST), ((1, 2), STRAIGHT_COST), ((0, 2), DIAG_COST)]
    );
}

#[test]
fn neighbors_avoid_obstacles_and_cut_corners() {
    let map = GridMap::new(small_map());
    assert_eq!(map.width(), 3);
    assert_eq!(map.height(), 3);
    assert_eq!(map.neighbors((0, 0)), vec![((0, 1), STRAIGHT_COST)]);
    assert_eq!(
        map.neighbors((1, 1)),
        vec![
            ((2, 1), STRAIGHT_COST),
            ((2, 2), DIAG_COST),
            ((1, 2), STRAIGHT_COST),
            ((0, 1), STRAIGHT_COST),
            ((0, 2), DIAG_COST),
        ]
    );
}

#[test]
fn neighbors_on_open_map_are_all_moves() {
    let tiles = vec!['.'; 12];
    let map = GridMap::new(MovingAiMap::new(MapType::Octile, 3, 4, tiles).unwrap());
    assert_eq!(map.width(), 4);
    assert_eq!(map.height(), 3);
    assert_eq!(map.neighbors((3, 2)), moves_within(4, 3, 3, 2));
    assert_eq!(map.neighbors((1, 1)).len(), 8);
}
