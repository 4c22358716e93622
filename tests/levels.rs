use bracket_random::prelude::RandomNumberGenerator;
use dungeoncrawl::automata::CellularAutomataArchitect;
use dungeoncrawl::distance::{distance_field, UNREACHABLE};
use dungeoncrawl::drunkard::{DrunkardsWalkArchitect, DESIRED_FLOOR, STAGGER_DISTANCE};
use dungeoncrawl::geometry::Point;
use dungeoncrawl::map::{map_idx, TileType, SCREEN_HEIGHT, SCREEN_WIDTH};
use dungeoncrawl::map_builder::{MapBuilder, NUM_MONSTERS, NUM_ROOMS};
use dungeoncrawl::rooms::RoomsArchitect;

fn floor_at(mb: &MapBuilder, p: Point) -> bool {
    mb.map.in_bounds(p) && mb.map.tiles[map_idx(p.x, p.y)] == TileType::Floor
}

fn start_distances(mb: &MapBuilder) -> Vec<u32> {
    let seeds = vec![map_idx(mb.player_start.x, mb.player_start.y)];
    distance_field(&mb.map, &seeds, 1024)
}

fn check_level(mb: &MapBuilder) {
    assert!(floor_at(mb, mb.player_start));
    assert_ne!(mb.player_start, mb.amulet_start);
    assert!(floor_at(mb, mb.amulet_start));
    let d = start_distances(mb);
    assert_ne!(d[map_idx(mb.amulet_start.x, mb.amulet_start.y)], UNREACHABLE);
    for (i, s) in mb.monster_spawns.iter().enumerate() {
        assert!(floor_at(mb, *s));
        let dx = (s.x - mb.player_start.x) as i64;
        let dy = (s.y - mb.player_start.y) as i64;
        assert!(dx * dx + dy * dy > 100);
        for t in mb.monster_spawns.iter().skip(i + 1) {
            assert_ne!(s, t);
        }
    }
}

#[test]
fn generated_levels_are_valid() {
    let mut built = 0;
    for seed in 0..12u64 {
        let mut rng = RandomNumberGenerator::seeded(seed);
        if let Ok(mb) = MapBuilder::new(&mut rng) {
            check_level(&mb);
            assert_eq!(mb.monster_spawns.len(), NUM_MONSTERS);
            built += 1;
        }
    }
    assert!(built > 0);
}

#[test]
fn generation_is_deterministic() {
    for seed in [3u64, 17, 42] {
        let mut a = RandomNumberGenerator::seeded(seed);
        let mut b = RandomNumberGenerator::seeded(seed);
        let la = MapBuilder::new(&mut a);
        let lb = MapBuilder::new(&mut b);
        match (la, lb) {
            (Ok(x), Ok(y)) => {
                assert_eq!(x.map.tiles, y.map.tiles);
                assert_eq!(x.rooms, y.rooms);
                assert_eq!(x.monster_spawns, y.monster_spawns);
                assert_eq!(x.player_start, y.player_start);
                assert_eq!(x.amulet_start, y.amulet_start);
                assert_eq!(x.theme, y.theme);
            }
            (Err(x), Err(y)) => assert_eq!(x, y),
            _ => panic!("runs with one seed disagree"),
        }
    }
}

#[test]
fn room_packing_places_twenty_rooms() {
    for seed in 0..10u64 {
        let mut rng = RandomNumberGenerator::seeded(seed);
        let mb = RoomsArchitect {}.new(&mut rng).expect("room packing completes");
        assert_eq!(mb.rooms.len(), NUM_ROOMS);
        for (i, a) in mb.rooms.iter().enumerate() {
            assert!(a.x2 - a.x1 >= 2 && a.x2 - a.x1 <= 9);
            assert!(a.y2 - a.y1 >= 2 && a.y2 - a.y1 <= 9);
            for b in mb.rooms.iter().skip(i + 1) {
                assert!(!a.intersect(b));
            }
        }
        assert_eq!(mb.player_start, mb.rooms[0].center());
        assert_eq!(mb.monster_spawns.len(), NUM_MONSTERS);
        check_level(&mb);
    }
}

#[test]
fn room_centers_are_connected() {
    let mut rng = RandomNumberGenerator::seeded(7);
    let mb = RoomsArchitect {}.new(&mut rng).unwrap();
    let d = start_distances(&mb);
    for room in mb.rooms.iter() {
        let c = room.center();
        assert_ne!(d[map_idx(c.x, c.y)], UNREACHABLE);
    }
}

#[test]
fn cellular_automata_keeps_a_wall_border() {
    for seed in 0..5u64 {
        let mut rng = RandomNumberGenerator::seeded(seed);
        if let Ok(mb) = (CellularAutomataArchitect {}).new(&mut rng) {
            for x in 0..SCREEN_WIDTH {
                assert_eq!(mb.map.tiles[map_idx(x, 0)], TileType::Wall);
                assert_eq!(mb.map.tiles[map_idx(x, SCREEN_HEIGHT - 1)], TileType::Wall);
            }
            for y in 0..SCREEN_HEIGHT {
                assert_eq!(mb.map.tiles[map_idx(0, y)], TileType::Wall);
                assert_eq!(mb.map.tiles[map_idx(SCREEN_WIDTH - 1, y)], TileType::Wall);
            }
            check_level(&mb);
        }
    }
}

#[test]
fn cellular_automata_starts_near_the_center() {
    let mut rng = RandomNumberGenerator::seeded(11);
    let mb = (CellularAutomataArchitect {}).new(&mut rng).unwrap();
    let c = Point::new(40, 25);
    let ds = |p: Point| {
        let dx = (p.x - c.x) as i64;
        let dy = (p.y - c.y) as i64;
        dx * dx + dy * dy
    };
    let best = ds(mb.player_start);
    for (i, t) in mb.map.tiles.iter().enumerate() {
        if *t == TileType::Floor {
            let p = Point::new(i as i32 % 80, i as i32 / 80);
            assert!(best <= ds(p));
        }
    }
}

#[test]
fn random_walk_floor_count_is_near_target() {
    for seed in 0..4u64 {
        let mut rng = RandomNumberGenerator::seeded(seed);
        let mb = DrunkardsWalkArchitect {}.new(&mut rng).expect("random walk completes");
        let floors = mb.map.floor_tiles();
        // The repair after the walks can only remove Floor.
        assert!(floors > 0);
        assert!(floors <= DESIRED_FLOOR + STAGGER_DISTANCE);
        assert_eq!(mb.player_start, Point::new(40, 25));
        // Every Floor tile is reachable from the center after repair.
        let d = start_distances(&mb);
        for (i, t) in mb.map.tiles.iter().enumerate() {
            if *t == TileType::Floor {
                assert_ne!(d[i], UNREACHABLE);
            }
        }
        check_level(&mb);
    }
}

#[test]
fn goal_is_the_farthest_reachable_tile() {
    let mut rng = RandomNumberGenerator::seeded(5);
    let mb = RoomsArchitect {}.new(&mut rng).unwrap();
    let d = start_distances(&mb);
    let g = map_idx(mb.amulet_start.x, mb.amulet_start.y);
    for (i, v) in d.iter().enumerate() {
        if *v != UNREACHABLE {
            assert!(*v <= d[g]);
            if i < g {
                assert!(*v < d[g]);
            }
        }
    }
}
