use vstd::prelude::*;
use bracket_random::prelude::RandomNumberGenerator;
use crate::geometry::{Point, Rect, covers};
use crate::map::{
    TileMap, TileType, NUM_TILES, SCREEN_WIDTH, SCREEN_HEIGHT, idx_of, col_of, row_of, point_of,
    map_idx, index_to_point, lemma_idx_of, lemma_coords_of,
};
use crate::distance::{UNREACHABLE, distance_field, reached};
use crate::map_builder::{MapBuilder, SEARCH_RADIUS, start_seeds, idx_of_point, spawn_ok};
use crate::rng::rng_range;

verus! {

pub const FORTRESS_WIDTH: i32 = 12;
pub const FORTRESS_HEIGHT: i32 = 11;

/// How many placements the overlay tries before leaving the level as it is.
pub const PREFAB_ATTEMPTS: u32 = 10;

/// One cell of the fortress layout.
#[derive(Clone, Copy, Debug, PartialEq, Eq, Structural)]
pub enum PrefabCell {
    Open,
    Wall,
    Monster,
}

/// The fortress layout, a 12 by 11 block: a walled keep with two side
/// wings, open ground around it, and three monster posts.
pub open spec fn fortress_layout(col: int, row: int) -> PrefabCell {
    if (row == 3 && col == 5) || (row == 5 && (col == 2 || col == 9)) {
        PrefabCell::Monster
    } else if ((row == 1 || row == 9) && 3 <= col <= 8) || ((row == 2 || row == 3 || row == 7
        || row == 8) && (col == 3 || col == 8)) || ((row == 4 || row == 6) && ((1 <= col <= 3) || (8
        <= col <= 10))) {
        PrefabCell::Wall
    } else {
        PrefabCell::Open
    }
}

pub open spec fn cell_tile(c: PrefabCell) -> TileType {
    if c == PrefabCell::Wall {
        TileType::Wall
    } else {
        TileType::Floor
    }
}

pub open spec fn fortress_area(x: int, y: int) -> Rect {
    Rect { x1: x as i32, y1: y as i32, x2: (x + FORTRESS_WIDTH) as i32, y2: (y + FORTRESS_HEIGHT) as i32 }
}

/// `tiles` with the fortress stamped at `(x, y)`.
pub open spec fn stamped(tiles: Seq<TileType>, x: int, y: int, i: int) -> TileType {
    if covers(fortress_area(x, y), point_of(i)) {
        cell_tile(fortress_layout(col_of(i) - x, row_of(i) - y))
    } else {
        tiles[i]
    }
}

pub fn fortress_cell(col: i32, row: i32) -> (r: PrefabCell)
    ensures
        r == fortress_layout(col as int, row as int),
{
    if (row == 3 && col == 5) || (row == 5 && (col == 2 || col == 9)) {
        PrefabCell::Monster
    } else if ((row == 1 || row == 9) && 3 <= col && col <= 8) || ((row == 2 || row == 3 || row == 7
        || row == 8) && (col == 3 || col == 8)) || ((row == 4 || row == 6) && ((1 <= col && col <= 3)
        || (8 <= col && col <= 10))) {
        PrefabCell::Wall
    } else {
        PrefabCell::Open
    }
}

/// A copy of `tiles` with the fortress stamped at `(x, y)`.
fn stamp_fortress(tiles: &Vec<TileType>, x: i32, y: i32) -> (r: Vec<TileType>)
    requires
        tiles@.len() == NUM_TILES,
        0 <= x <= SCREEN_WIDTH - FORTRESS_WIDTH,
        0 <= y <= SCREEN_HEIGHT - FORTRESS_HEIGHT,
    ensures
        r@.len() == NUM_TILES,
        forall|i: int| 0 <= i < NUM_TILES ==> #[trigger] r@[i] == stamped(tiles@, x as int, y as int, i),
{
    let area = Rect::with_size(x, y, FORTRESS_WIDTH, FORTRESS_HEIGHT);
    let mut r: Vec<TileType> = Vec::new();
    let mut i: usize = 0;
    while i < NUM_TILES
        invariant
            tiles@.len() == NUM_TILES,
            area == fortress_area(x as int, y as int),
            i <= NUM_TILES,
            r@.len() == i,
            forall|j: int| 0 <= j < i ==> #[trigger] r@[j] == stamped(tiles@, x as int, y as int, j),
        decreases NUM_TILES - i,
    {
        let p = index_to_point(i);
        if area.x1 <= p.x && p.x < area.x2 && area.y1 <= p.y && p.y < area.y2 {
            let cell = fortress_cell(p.x - x, p.y - y);
            if cell == PrefabCell::Wall {
                r.push(TileType::Wall);
            } else {
                r.push(TileType::Floor);
            }
        } else {
            r.push(tiles[i]);
        }
        i += 1;
    }
    r
}

/// The grid with the fortress stamped at `(x, y)`.
pub open spec fn stamped_seq(tiles: Seq<TileType>, x: int, y: int) -> Seq<TileType> {
    Seq::new(tiles.len(), |i: int| stamped(tiles, x, y, i))
}

/// The fortress wall at `(x, y)` would fall on `p`.
pub open spec fn under_wall(x: int, y: int, p: Point) -> bool {
    covers(fortress_area(x, y), p) && fortress_layout(p.x - x, p.y - y) == PrefabCell::Wall
}

/// The fortress may stand at `(x, y)`: it covers neither the start nor the
/// goal, none of its walls falls on a spawn point, and with it the goal is
/// still reached from the start.
pub open spec fn fortress_fits(
    tiles: Seq<TileType>,
    start: Point,
    goal: Point,
    spawns: Seq<Point>,
    x: int,
    y: int,
) -> bool {
    &&& !covers(fortress_area(x, y), start)
    &&& !covers(fortress_area(x, y), goal)
    &&& forall|k: int| 0 <= k < spawns.len() ==> !under_wall(x, y, #[trigger] spawns[k])
    &&& reached(stamped_seq(tiles, x, y), start_seeds(start), SEARCH_RADIUS as nat, idx_of_point(goal))
}

/// Stamps the fortress at `(x, y)` when it fits there, and says whether it
/// did; when not, nothing changes. The spawn points stay as they are.
pub fn try_place_fortress(mb: &mut MapBuilder, x: i32, y: i32) -> (placed: bool)
    requires
        old(mb).is_valid_level(),
        0 <= x < SCREEN_WIDTH - FORTRESS_WIDTH,
        0 <= y < SCREEN_HEIGHT - FORTRESS_HEIGHT,
    ensures
        placed == fortress_fits(
            old(mb).map.tiles@,
            old(mb).player_start,
            old(mb).amulet_start,
            old(mb).monster_spawns@,
            x as int,
            y as int,
        ),
        final(mb).is_valid_level(),
        final(mb).player_start == old(mb).player_start,
        final(mb).amulet_start == old(mb).amulet_start,
        final(mb).monster_spawns@ == old(mb).monster_spawns@,
        final(mb).rooms@ == old(mb).rooms@,
        final(mb).theme == old(mb).theme,
        final(mb).map.tiles@ == if placed {
            stamped_seq(old(mb).map.tiles@, x as int, y as int)
        } else {
            old(mb).map.tiles@
        },
{
    let start = mb.player_start;
    let goal = mb.amulet_start;
    let area = Rect::with_size(x, y, FORTRESS_WIDTH, FORTRESS_HEIGHT);
    let covers_start = area.x1 <= start.x && start.x < area.x2 && area.y1 <= start.y && start.y < area.y2;
    let covers_goal = area.x1 <= goal.x && goal.x < area.x2 && area.y1 <= goal.y && goal.y < area.y2;
    if covers_start || covers_goal {
        return false;
    }
    let mut j: usize = 0;
    while j < mb.monster_spawns.len()
        invariant
            area == fortress_area(x as int, y as int),
            mb.is_valid_level(),
            mb.map.tiles@ == old(mb).map.tiles@,
            mb.monster_spawns@ == old(mb).monster_spawns@,
            mb.player_start == old(mb).player_start,
            mb.amulet_start == old(mb).amulet_start,
            mb.rooms@ == old(mb).rooms@,
            mb.theme == old(mb).theme,
            j <= mb.monster_spawns@.len(),
            forall|k: int| 0 <= k < j ==> !under_wall(x as int, y as int, #[trigger] mb.monster_spawns@[k]),
        decreases mb.monster_spawns@.len() - j,
    {
        let sp = mb.monster_spawns[j];
        if area.x1 <= sp.x && sp.x < area.x2 && area.y1 <= sp.y && sp.y < area.y2 {
            if fortress_cell(sp.x - x, sp.y - y) == PrefabCell::Wall {
                return false;
            }
        }
        j += 1;
    }
    let ghost old_tiles = mb.map.tiles@;
    let candidate = TileMap { tiles: stamp_fortress(&mb.map.tiles, x, y) };
    let ghost new_tiles = candidate.tiles@;
    assert(new_tiles =~= stamped_seq(old_tiles, x as int, y as int));
    let s = map_idx(start.x, start.y);
    let g = map_idx(goal.x, goal.y);
    let mut seeds: Vec<usize> = Vec::new();
    seeds.push(s);
    assert(seeds@ == start_seeds(start));
    let d = distance_field(&candidate, &seeds, SEARCH_RADIUS);
    if d[g] == UNREACHABLE {
        return false;
    }
    proof {
        lemma_coords_of(s as int);
        lemma_coords_of(g as int);
        lemma_idx_of(start.x as int, start.y as int);
        lemma_idx_of(goal.x as int, goal.y as int);
        assert(new_tiles[s as int] == old_tiles[s as int]);
        assert(new_tiles[g as int] == old_tiles[g as int]);
        assert forall|k: int| 0 <= k < mb.monster_spawns@.len() implies spawn_ok(
            new_tiles,
            start,
            #[trigger] mb.monster_spawns@[k],
        ) by {
            let sp = mb.monster_spawns@[k];
            assert(spawn_ok(old_tiles, start, sp));
            lemma_idx_of(sp.x as int, sp.y as int);
            assert(point_of(idx_of(sp.x as int, sp.y as int)) == sp);
            assert(!under_wall(x as int, y as int, sp));
        }
        assert(reached(new_tiles, start_seeds(start), SEARCH_RADIUS as nat, g as int));
    }
    mb.map = candidate;
    true
}

/// Tries up to `PREFAB_ATTEMPTS` random corners for the fortress and stamps
/// it at the first where it fits. When none fits the level stays as it was.
pub fn apply_prefab(mb: &mut MapBuilder, rng: &mut RandomNumberGenerator)
    requires
        old(mb).is_valid_level(),
    ensures
        final(mb).is_valid_level(),
        final(mb).player_start == old(mb).player_start,
        final(mb).amulet_start == old(mb).amulet_start,
        final(mb).rooms@ == old(mb).rooms@,
        final(mb).theme == old(mb).theme,
        final(mb).monster_spawns@ == old(mb).monster_spawns@,
        final(mb).map.tiles@ == old(mb).map.tiles@ || exists|x: int, y: int|
            0 <= x < SCREEN_WIDTH - FORTRESS_WIDTH && 0 <= y < SCREEN_HEIGHT - FORTRESS_HEIGHT
                && fortress_fits(
                old(mb).map.tiles@,
                old(mb).player_start,
                old(mb).amulet_start,
                old(mb).monster_spawns@,
                x,
                y,
            ) && final(mb).map.tiles@ == stamped_seq(
                old(mb).map.tiles@,
                x,
                y,
            ),
{
    let mut attempts: u32 = 0;
    while attempts < PREFAB_ATTEMPTS
        invariant
            mb.is_valid_level(),
            mb.map.tiles@ == old(mb).map.tiles@,
            mb.monster_spawns@ == old(mb).monster_spawns@,
            mb.player_start == old(mb).player_start,
            mb.amulet_start == old(mb).amulet_start,
            mb.rooms@ == old(mb).rooms@,
            mb.theme == old(mb).theme,
        decreases PREFAB_ATTEMPTS - attempts,
    {
        attempts += 1;
        let x = rng_range(rng, 0, SCREEN_WIDTH - FORTRESS_WIDTH);
        let y = rng_range(rng, 0, SCREEN_HEIGHT - FORTRESS_HEIGHT);
        if try_place_fortress(mb, x, y) {
            return;
        }
    }
}

} // verus!
