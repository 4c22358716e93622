use dungeoncrawl::distance::{distance_field, UNREACHABLE};
use dungeoncrawl::map::{map_idx, TileMap, TileType};

/// A map that is Wall everywhere but a Floor block from (x0, y0) of size w by h.
fn block_map(x0: i32, y0: i32, w: i32, h: i32) -> TileMap {
    let mut map = TileMap::new();
    map.fill(TileType::Wall);
    for y in y0..y0 + h {
        for x in x0..x0 + w {
            map.tiles[map_idx(x, y)] = TileType::Floor;
        }
    }
    map
}

#[test]
fn single_seed_on_five_by_five_floor() {
    let map = block_map(10, 10, 5, 5);
    let seed = map_idx(12, 12);
    let d = distance_field(&map, &vec![seed], 1024);
    assert_eq!(d[seed], 0);
    for (x, y) in [(11, 12), (13, 12), (12, 11), (12, 13)] {
        assert_eq!(d[map_idx(x, y)], 1);
    }
    // A diagonal move costs one step, like an orthogonal one.
    for (x, y) in [(11, 11), (13, 11), (11, 13), (13, 13)] {
        assert_eq!(d[map_idx(x, y)], 1);
    }
    assert_eq!(d[map_idx(10, 10)], 2);
    assert_eq!(d[map_idx(14, 12)], 2);
    assert_eq!(d[map_idx(9, 12)], UNREACHABLE);
}

#[test]
fn distance_field_is_idempotent() {
    let map = block_map(3, 4, 30, 20);
    let seeds = vec![map_idx(5, 6), map_idx(20, 20)];
    let first = distance_field(&map, &seeds, 1024);
    let second = distance_field(&map, &seeds, 1024);
    assert_eq!(first, second);
}

#[test]
fn walls_block_and_are_unreachable() {
    let mut map = block_map(0, 0, 10, 3);
    // A wall across column 5 splits the block.
    for y in 0..3 {
        map.tiles[map_idx(5, y)] = TileType::Wall;
    }
    let d = distance_field(&map, &vec![map_idx(0, 1)], 1024);
    assert_eq!(d[map_idx(4, 1)], 4);
    assert_eq!(d[map_idx(5, 1)], UNREACHABLE);
    assert_eq!(d[map_idx(6, 1)], UNREACHABLE);
}

#[test]
fn path_goes_around_walls() {
    let mut map = block_map(0, 0, 10, 10);
    for y in 0..9 {
        map.tiles[map_idx(5, y)] = TileType::Wall;
    }
    let d = distance_field(&map, &vec![map_idx(4, 0)], 1024);
    // Down column 4 to row 8, through (5, 9), back up column 6.
    assert_eq!(d[map_idx(5, 9)], 9);
    assert_eq!(d[map_idx(6, 0)], 18);
}

#[test]
fn radius_limits_the_search() {
    let map = block_map(0, 0, 20, 1);
    let d = distance_field(&map, &vec![map_idx(0, 0)], 5);
    assert_eq!(d[map_idx(5, 0)], 5);
    assert_eq!(d[map_idx(6, 0)], UNREACHABLE);
}

#[test]
fn nearest_of_several_seeds_wins() {
    let map = block_map(0, 0, 21, 1);
    let d = distance_field(&map, &vec![map_idx(0, 0), map_idx(20, 0)], 1024);
    assert_eq!(d[map_idx(10, 0)], 10);
    assert_eq!(d[map_idx(15, 0)], 5);
    assert_eq!(d[map_idx(20, 0)], 0);
}

#[test]
fn wall_seed_is_unreachable() {
    let map = block_map(0, 0, 3, 3);
    let d = distance_field(&map, &vec![map_idx(5, 5)], 1024);
    assert!(d.iter().all(|v| *v == UNREACHABLE));
}

#[test]
fn all_floor_grid_distance_is_chebyshev() {
    let map = TileMap::new();
    let d = distance_field(&map, &vec![map_idx(0, 0)], 1024);
    assert_eq!(d[map_idx(79, 49)], 79);
    assert_eq!(d[map_idx(10, 30)], 30);
}
