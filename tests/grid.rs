use dungeoncrawl::geometry::{Point, Rect};
use dungeoncrawl::map::{index_to_point, map_idx, TileMap, TileType, NUM_TILES};

#[test]
fn map_idx_is_row_major() {
    assert_eq!(map_idx(0, 0), 0);
    assert_eq!(map_idx(5, 0), 5);
    assert_eq!(map_idx(0, 1), 80);
    assert_eq!(map_idx(79, 49), 3999);
}

#[test]
fn index_to_point_inverts_map_idx() {
    assert_eq!(index_to_point(0), Point::new(0, 0));
    assert_eq!(index_to_point(81), Point::new(1, 1));
    assert_eq!(index_to_point(3999), Point::new(79, 49));
}

#[test]
fn new_map_is_all_floor() {
    let map = TileMap::new();
    assert_eq!(map.tiles.len(), NUM_TILES);
    assert!(map.tiles.iter().all(|t| *t == TileType::Floor));
    assert_eq!(map.floor_tiles(), NUM_TILES);
}

#[test]
fn in_bounds_checks_both_axes() {
    let map = TileMap::new();
    assert!(map.in_bounds(Point::new(0, 0)));
    assert!(map.in_bounds(Point::new(79, 49)));
    assert!(!map.in_bounds(Point::new(80, 0)));
    assert!(!map.in_bounds(Point::new(0, 50)));
    assert!(!map.in_bounds(Point::new(-1, 3)));
    assert!(!map.in_bounds(Point::new(3, -1)));
}

#[test]
fn try_idx_rejects_points_off_the_grid() {
    let map = TileMap::new();
    assert_eq!(map.try_idx(Point::new(3, 2)), Some(163));
    assert_eq!(map.try_idx(Point::new(-1, 0)), None);
    assert_eq!(map.try_idx(Point::new(80, 10)), None);
    assert_eq!(map.try_idx(Point::new(10, 50)), None);
}

#[test]
fn can_enter_tile_needs_floor_on_the_grid() {
    let mut map = TileMap::new();
    map.tiles[map_idx(4, 4)] = TileType::Wall;
    assert!(map.can_enter_tile(Point::new(3, 4)));
    assert!(!map.can_enter_tile(Point::new(4, 4)));
    assert!(!map.can_enter_tile(Point::new(-1, 4)));
}

#[test]
fn fill_overwrites_every_tile() {
    let mut map = TileMap::new();
    map.fill(TileType::Wall);
    assert!(map.tiles.iter().all(|t| *t == TileType::Wall));
    assert_eq!(map.floor_tiles(), 0);
}

#[test]
fn rect_center_and_intersect() {
    let a = Rect::with_size(1, 1, 4, 4);
    assert_eq!(a.x2, 5);
    assert_eq!(a.y2, 5);
    assert_eq!(a.center(), Point::new(3, 3));
    let touching = Rect::with_size(5, 1, 2, 2);
    assert!(a.intersect(&touching));
    let apart = Rect::with_size(6, 1, 2, 2);
    assert!(!a.intersect(&apart));
    assert!(!apart.intersect(&a));
    let below = Rect::with_size(1, 6, 2, 2);
    assert!(!a.intersect(&below));
}
