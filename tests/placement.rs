use bracket_random::prelude::RandomNumberGenerator;
use dungeoncrawl::automata::CellularAutomataArchitect;
use dungeoncrawl::geometry::{distance_sq, Point};
use dungeoncrawl::map::{map_idx, TileMap, TileType};
use dungeoncrawl::map_builder::{MapBuilder, NUM_MONSTERS};
use dungeoncrawl::themes::Theme;

fn level_with(map: TileMap, start: Point) -> MapBuilder {
    MapBuilder {
        map,
        rooms: Vec::new(),
        monster_spawns: Vec::new(),
        player_start: start,
        amulet_start: start,
        theme: Theme::Dungeon,
    }
}

fn walled() -> TileMap {
    let mut map = TileMap::new();
    map.fill(TileType::Wall);
    map
}

#[test]
fn goal_is_none_when_only_the_start_is_reachable() {
    let mut map = walled();
    map.tiles[map_idx(10, 10)] = TileType::Floor;
    map.tiles[map_idx(12, 10)] = TileType::Floor;
    let mb = level_with(map, Point::new(10, 10));
    assert_eq!(mb.find_most_distant(), None);
}

#[test]
fn goal_is_the_far_end_of_a_corridor() {
    let mut map = walled();
    for x in 5..15 {
        map.tiles[map_idx(x, 7)] = TileType::Floor;
    }
    let mb = level_with(map, Point::new(8, 7));
    assert_eq!(mb.find_most_distant(), Some(Point::new(14, 7)));
}

#[test]
fn goal_ties_go_to_the_first_index() {
    let mut map = walled();
    for x in 5..12 {
        map.tiles[map_idx(x, 7)] = TileType::Floor;
    }
    let mb = level_with(map, Point::new(8, 7));
    assert_eq!(mb.find_most_distant(), Some(Point::new(5, 7)));
}

#[test]
fn spawning_fails_with_too_few_tiles() {
    let mut map = walled();
    for x in 30..70 {
        map.tiles[map_idx(x, 20)] = TileType::Floor;
    }
    let mb = level_with(map, Point::new(30, 20));
    let mut rng = RandomNumberGenerator::seeded(2);
    // Only columns 41..70 are farther than ten tiles: 29 candidates.
    assert!(mb.spawn_monsters(&Point::new(30, 20), &mut rng).is_none());
}

#[test]
fn spawns_are_far_distinct_floor_tiles() {
    let mut map = walled();
    for x in 30..70 {
        map.tiles[map_idx(x, 20)] = TileType::Floor;
        map.tiles[map_idx(x, 21)] = TileType::Floor;
    }
    let start = Point::new(30, 20);
    let mb = level_with(map, start);
    let mut rng = RandomNumberGenerator::seeded(2);
    let spawns = mb.spawn_monsters(&start, &mut rng).expect("58 candidates are enough");
    assert_eq!(spawns.len(), NUM_MONSTERS);
    for (i, s) in spawns.iter().enumerate() {
        assert!(mb.map.can_enter_tile(*s));
        assert!(distance_sq(*s, start) > 100);
        assert!(!spawns[i + 1..].contains(s));
    }
}

#[test]
fn exactly_ten_tiles_away_is_too_close() {
    let mut map = walled();
    for x in 30..100 {
        if x < 80 {
            map.tiles[map_idx(x, 20)] = TileType::Floor;
        }
    }
    for y in 0..50 {
        map.tiles[map_idx(45, y)] = TileType::Floor;
    }
    let start = Point::new(40, 20);
    let mb = level_with(map, start);
    let mut rng = RandomNumberGenerator::seeded(4);
    let spawns = mb.spawn_monsters(&start, &mut rng).unwrap();
    assert!(!spawns.contains(&Point::new(50, 20)));
    assert!(!spawns.contains(&Point::new(30, 20)));
}

#[test]
fn find_start_picks_the_floor_closest_to_the_center() {
    let architect = CellularAutomataArchitect {};
    let mut map = walled();
    assert_eq!(architect.find_start(&map), None);
    map.tiles[map_idx(45, 25)] = TileType::Floor;
    map.tiles[map_idx(36, 25)] = TileType::Floor;
    map.tiles[map_idx(40, 28)] = TileType::Floor;
    assert_eq!(architect.find_start(&map), Some(Point::new(40, 28)));
    // (36, 25) and (44, 25) are equally close; the first index wins.
    map.tiles[map_idx(44, 25)] = TileType::Floor;
    map.tiles[map_idx(36, 25)] = TileType::Floor;
    map.tiles[map_idx(40, 28)] = TileType::Wall;
    assert_eq!(architect.find_start(&map), Some(Point::new(36, 25)));
}

#[test]
fn place_room_carves_only_non_overlapping_rooms() {
    let mut mb = level_with(walled(), Point::new(0, 0));
    let first = dungeoncrawl::geometry::Rect::with_size(2, 2, 3, 3);
    assert!(mb.place_room(first));
    assert_eq!(mb.rooms, vec![first]);
    assert_eq!(mb.map.floor_tiles(), 9);
    assert_eq!(mb.map.tiles[map_idx(4, 4)], TileType::Floor);
    assert_eq!(mb.map.tiles[map_idx(5, 4)], TileType::Wall);
    // Touching the first room's edge counts as overlapping.
    let touching = dungeoncrawl::geometry::Rect::with_size(5, 2, 2, 2);
    assert!(!mb.place_room(touching));
    assert_eq!(mb.rooms.len(), 1);
    assert_eq!(mb.map.floor_tiles(), 9);
    let apart = dungeoncrawl::geometry::Rect::with_size(6, 2, 2, 2);
    assert!(mb.place_room(apart));
    assert_eq!(mb.map.floor_tiles(), 13);
}

fn open_level() -> MapBuilder {
    let mut mb = level_with(TileMap::new(), Point::new(70, 40));
    mb.amulet_start = Point::new(75, 45);
    mb
}

#[test]
fn fortress_is_refused_over_the_start() {
    let mut mb = open_level();
    let before = mb.map.tiles.clone();
    assert!(!dungeoncrawl::prefab::try_place_fortress(&mut mb, 60, 35));
    assert_eq!(mb.map.tiles, before);
}

#[test]
fn fortress_is_stamped_where_it_fits() {
    let mut mb = open_level();
    // (5, 3) is a monster post of the layout, open ground.
    mb.monster_spawns = vec![Point::new(5, 3), Point::new(30, 30)];
    assert!(dungeoncrawl::prefab::try_place_fortress(&mut mb, 0, 0));
    assert_eq!(mb.map.tiles[map_idx(3, 1)], TileType::Wall);
    assert_eq!(mb.map.tiles[map_idx(0, 0)], TileType::Floor);
    assert_eq!(mb.map.tiles[map_idx(12, 0)], TileType::Floor);
    assert_eq!(mb.map.tiles[map_idx(5, 3)], TileType::Floor);
    assert_eq!(mb.monster_spawns, vec![Point::new(5, 3), Point::new(30, 30)]);
}

#[test]
fn fortress_is_refused_over_a_spawn() {
    let mut mb = open_level();
    // (3, 1) is a wall of the layout.
    mb.monster_spawns = vec![Point::new(3, 1)];
    assert!(!dungeoncrawl::prefab::try_place_fortress(&mut mb, 0, 0));
    assert_eq!(mb.map.floor_tiles(), 4000);
}

#[test]
fn fortress_is_refused_over_the_goal() {
    let mut mb = open_level();
    mb.player_start = Point::new(10, 10);
    mb.monster_spawns = vec![Point::new(30, 30)];
    assert!(!dungeoncrawl::prefab::try_place_fortress(&mut mb, 66, 38));
    assert_eq!(mb.monster_spawns, vec![Point::new(30, 30)]);
    assert_eq!(mb.map.floor_tiles(), 4000);
}

#[test]
fn entities_at_lists_indices_in_order() {
    let positions = vec![Point::new(1, 1), Point::new(2, 2), Point::new(1, 1)];
    assert_eq!(dungeoncrawl::systems::entities_at(&positions, Point::new(1, 1)), vec![0, 2]);
    assert!(dungeoncrawl::systems::entities_at(&positions, Point::new(3, 3)).is_empty());
}
