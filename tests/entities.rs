use bracket_random::prelude::RandomNumberGenerator;
use dungeoncrawl::camera::Camera;
use dungeoncrawl::geometry::Point;
use dungeoncrawl::map::{map_idx, TileMap, TileType};
use dungeoncrawl::player::{Key, Player};
use dungeoncrawl::prefab::{fortress_cell, PrefabCell};
use dungeoncrawl::spawner::{goblin, monster_for_roll, orc, spawn_monster, spawn_player};
use dungeoncrawl::systems::{monster_intent, movement, random_move, MonsterIntent};
use dungeoncrawl::themes::{MapTheme, Theme};
use dungeoncrawl::turn::{end_turn, player_input, take_hit, Health, PlayerAction, TurnState};

#[test]
fn player_spawn_stats() {
    let p = spawn_player(Point::new(3, 4));
    assert_eq!(p.position, Point::new(3, 4));
    assert_eq!(p.glyph, '@');
    assert_eq!(p.current_hp, 20);
    assert_eq!(p.max_hp, 20);
}

#[test]
fn goblin_and_orc_stats() {
    assert_eq!(goblin(), (1, "Goblin".to_string(), 'g'));
    assert_eq!(orc(), (2, "Orc".to_string(), 'o'));
}

#[test]
fn rolls_pick_goblins_and_orcs() {
    let g = monster_for_roll(8, Point::new(1, 1));
    assert_eq!(g.name, "Goblin");
    assert_eq!(g.max_hp, 1);
    assert_eq!(g.current_hp, 1);
    let o = monster_for_roll(9, Point::new(1, 1));
    assert_eq!(o.name, "Orc");
    assert_eq!(o.glyph, 'o');
    assert_eq!(o.max_hp, 2);
    assert_eq!(monster_for_roll(1, Point::new(0, 0)).glyph, 'g');
    assert_eq!(monster_for_roll(10, Point::new(0, 0)).glyph, 'o');
}

#[test]
fn spawned_monsters_are_goblins_or_orcs() {
    let mut rng = RandomNumberGenerator::seeded(1);
    let mut goblins = 0;
    let mut orcs = 0;
    for _ in 0..200 {
        let m = spawn_monster(&mut rng, Point::new(2, 3));
        assert_eq!(m.position, Point::new(2, 3));
        if m.name == "Goblin" {
            goblins += 1;
        } else {
            assert_eq!(m.name, "Orc");
            orcs += 1;
        }
    }
    assert!(goblins > 0 && orcs > 0);
}

#[test]
fn player_moves_onto_floor_only() {
    let mut map = TileMap::new();
    map.tiles[map_idx(6, 5)] = TileType::Wall;
    let mut player = Player::new(Point::new(5, 5));
    player.update(Some(Key::Right), &map);
    assert_eq!(player.position, Point::new(5, 5));
    player.update(Some(Key::Up), &map);
    assert_eq!(player.position, Point::new(5, 4));
    player.update(Some(Key::Left), &map);
    assert_eq!(player.position, Point::new(4, 4));
    player.update(Some(Key::Down), &map);
    assert_eq!(player.position, Point::new(4, 5));
    player.update(None, &map);
    player.update(Some(Key::Other), &map);
    assert_eq!(player.position, Point::new(4, 5));
    let mut corner = Player::new(Point::new(0, 0));
    corner.update(Some(Key::Left), &map);
    assert_eq!(corner.position, Point::new(0, 0));
}

#[test]
fn camera_centres_on_the_player() {
    let c = Camera::new(Point::new(40, 25));
    assert_eq!((c.left_x, c.right_x, c.top_y, c.bottom_y), (20, 60, 13, 37));
}

#[test]
fn movement_follows_the_player_with_the_camera() {
    let mut map = TileMap::new();
    map.tiles[map_idx(2, 2)] = TileType::Wall;
    let mut camera = Camera::new(Point::new(10, 10));
    assert!(!movement(&map, &mut camera, Point::new(2, 2), true));
    assert_eq!(camera, Camera::new(Point::new(10, 10)));
    assert!(movement(&map, &mut camera, Point::new(11, 10), false));
    assert_eq!(camera, Camera::new(Point::new(10, 10)));
    assert!(movement(&map, &mut camera, Point::new(11, 10), true));
    assert_eq!(camera, Camera::new(Point::new(11, 10)));
    assert!(!movement(&map, &mut camera, Point::new(80, 10), true));
}

#[test]
fn monster_intent_attacks_only_the_player() {
    let d = Point::new(4, 4);
    let nobody: Vec<(Point, bool)> = vec![(Point::new(1, 1), true)];
    assert_eq!(monster_intent(d, &nobody), MonsterIntent::Move(d));
    let monster = vec![(d, false)];
    assert_eq!(monster_intent(d, &monster), MonsterIntent::Stay);
    let player = vec![(d, false), (d, true)];
    assert_eq!(monster_intent(d, &player), MonsterIntent::Attack(d));
}

#[test]
fn random_move_takes_one_orthogonal_step() {
    let mut rng = RandomNumberGenerator::seeded(9);
    let pos = Point::new(10, 10);
    let mut seen = Vec::new();
    for _ in 0..100 {
        match random_move(&mut rng, pos, &Vec::new()) {
            MonsterIntent::Move(d) => {
                let step = (d.x - pos.x).abs() + (d.y - pos.y).abs();
                assert_eq!(step, 1);
                if !seen.contains(&d) {
                    seen.push(d);
                }
            }
            other => panic!("unexpected intent {:?}", other),
        }
    }
    assert_eq!(seen.len(), 4);
}

#[test]
fn themes_map_tiles_to_symbols() {
    assert_eq!(Theme::Dungeon.tile_to_render(TileType::Floor), '.');
    assert_eq!(Theme::Dungeon.tile_to_render(TileType::Wall), '#');
    assert_eq!(Theme::Forest.tile_to_render(TileType::Floor), ';');
    assert_eq!(Theme::Forest.tile_to_render(TileType::Wall), '"');
}

#[test]
fn fortress_layout_cells() {
    assert_eq!(fortress_cell(0, 0), PrefabCell::Open);
    assert_eq!(fortress_cell(3, 1), PrefabCell::Wall);
    assert_eq!(fortress_cell(5, 3), PrefabCell::Monster);
    assert_eq!(fortress_cell(2, 5), PrefabCell::Monster);
    assert_eq!(fortress_cell(9, 5), PrefabCell::Monster);
    assert_eq!(fortress_cell(1, 4), PrefabCell::Wall);
    assert_eq!(fortress_cell(0, 4), PrefabCell::Open);
    assert_eq!(fortress_cell(5, 5), PrefabCell::Open);
    assert_eq!(fortress_cell(8, 9), PrefabCell::Wall);
}

#[test]
fn map_render_draws_the_window() {
    let mut map = TileMap::new();
    map.tiles[map_idx(1, 0)] = TileType::Wall;
    let camera = Camera { left_x: -2, right_x: 3, top_y: -1, bottom_y: 1 };
    let batch = dungeoncrawl::systems::map_render(&map, &camera);
    // Columns 0..3 of rows 0 and 1 lie on the grid.
    assert_eq!(batch.len(), 6);
    assert_eq!(batch[0], (Point::new(2, 1), '.'));
    assert_eq!(batch[1], (Point::new(3, 1), '#'));
    assert_eq!(batch[5], (Point::new(4, 2), '.'));
}

#[test]
fn entity_render_offsets_by_the_camera() {
    let camera = Camera::new(Point::new(30, 20));
    let entities = vec![(Point::new(30, 20), '@'), (Point::new(12, 9), 'g')];
    let batch = dungeoncrawl::systems::entity_render(&entities, &camera);
    assert_eq!(batch, vec![(Point::new(20, 12), '@'), (Point::new(2, 1), 'g')]);
}

#[test]
fn end_turn_cycles_and_detects_death() {
    assert_eq!(end_turn(TurnState::AwaitingInput, &vec![0]), TurnState::AwaitingInput);
    assert_eq!(end_turn(TurnState::PlayerTurn, &vec![5]), TurnState::MonsterTurn);
    assert_eq!(end_turn(TurnState::MonsterTurn, &vec![5]), TurnState::AwaitingInput);
    assert_eq!(end_turn(TurnState::MonsterTurn, &vec![0]), TurnState::GameOver);
    assert_eq!(end_turn(TurnState::PlayerTurn, &vec![]), TurnState::MonsterTurn);
    assert_eq!(end_turn(TurnState::GameOver, &vec![3]), TurnState::GameOver);
}

#[test]
fn take_hit_removes_one_point() {
    assert_eq!(take_hit(Health { current: 2, max: 2 }), (Health { current: 1, max: 2 }, false));
    assert_eq!(take_hit(Health { current: 1, max: 2 }), (Health { current: 0, max: 2 }, true));
}

#[test]
fn player_input_attacks_moves_or_passes() {
    let pos = Point::new(5, 5);
    let enemies = vec![Point::new(6, 5), Point::new(1, 1), Point::new(6, 5)];
    assert_eq!(player_input(Key::Right, pos, &enemies), PlayerAction::Attack(vec![0, 2]));
    assert_eq!(player_input(Key::Up, pos, &enemies), PlayerAction::Move(Point::new(5, 4)));
    assert_eq!(player_input(Key::Other, pos, &enemies), PlayerAction::Pass);
}
