use vstd::prelude::*;
use bracket_random::prelude::RandomNumberGenerator;
use crate::geometry::{Point, dist_sq, distance_sq};
use crate::map::{
    TileMap, TileType, NUM_TILES, SCREEN_WIDTH, SCREEN_HEIGHT, idx_of, col_of, row_of, on_border,
    point_of, floor_at, is_floor, map_idx, index_to_point, lemma_coords_of, lemma_idx_of,
    };
use crate::map_builder::{MapBuilder, GenerationError, finish_level};
use crate::rng::rng_range;
use crate::themes::Theme;

verus! {

/// How many smoothing passes follow the random seeding.
pub const SMOOTHING_PASSES: usize = 10;

/// A seeding roll below this makes an interior tile a Wall (out of 100).
pub const WALL_PERCENT: i32 = 45;

/// 1 when the tile at `(x, y)` is a Wall, else 0.
pub open spec fn wall_at(tiles: Seq<TileType>, x: int, y: int) -> int {
    if tiles[idx_of(x, y)] == TileType::Wall {
        1
    } else {
        0
    }
}

/// The number of Walls among the eight tiles around `(x, y)`.
pub open spec fn wall_neighbours(tiles: Seq<TileType>, x: int, y: int) -> int {
    wall_at(tiles, x - 1, y - 1) + wall_at(tiles, x, y - 1) + wall_at(tiles, x + 1, y - 1) + wall_at(
        tiles,
        x - 1,
        y,
    ) + wall_at(tiles, x + 1, y) + wall_at(tiles, x - 1, y + 1) + wall_at(tiles, x, y + 1) + wall_at(
        tiles,
        x + 1,
        y + 1,
    )
}

/// The smoothing rule: Wall when more than four neighbours are Walls or none is.
pub open spec fn smoothed_tile(n: int) -> TileType {
    if n > 4 || n == 0 {
        TileType::Wall
    } else {
        TileType::Floor
    }
}

/// One smoothing pass over `tiles`: interior tiles follow the rule, computed
/// from the tiles before the pass; border tiles are kept.
pub open spec fn smoothed(tiles: Seq<TileType>, i: int) -> TileType {
    if on_border(col_of(i), row_of(i)) {
        tiles[i]
    } else {
        smoothed_tile(wall_neighbours(tiles, col_of(i), row_of(i)))
    }
}

/// `tiles` after `n` smoothing passes.
pub open spec fn smoothed_n(tiles: Seq<TileType>, n: nat) -> Seq<TileType>
    decreases n,
{
    if n == 0 {
        tiles
    } else {
        let prev = smoothed_n(tiles, (n - 1) as nat);
        Seq::new(prev.len(), |i: int| smoothed(prev, i))
    }
}

/// Every border tile is a Wall.
pub open spec fn border_walled(tiles: Seq<TileType>) -> bool {
    forall|i: int|
        0 <= i < NUM_TILES && on_border(col_of(i), row_of(i)) ==> #[trigger] tiles[i] == TileType::Wall
}

/// `p` is a Floor tile closest to `c`, the first in index order among equals.
pub open spec fn is_closest_floor(tiles: Seq<TileType>, c: Point, p: Point) -> bool {
    let pi = idx_of(p.x as int, p.y as int);
    &&& floor_at(tiles, p)
    &&& forall|q: int|
        0 <= q < NUM_TILES && #[trigger] is_floor(tiles, q) ==> dist_sq(p, c) <= dist_sq(point_of(q), c)
    &&& forall|q: int|
        0 <= q < pi && #[trigger] is_floor(tiles, q) ==> dist_sq(p, c) < dist_sq(point_of(q), c)
}

/// Cave generation by cellular automata: random noise smoothed into caverns.
pub struct CellularAutomataArchitect {}

impl CellularAutomataArchitect {
    /// Seeds each interior tile as Wall with chance `WALL_PERCENT` in 100 and
    /// every border tile as Wall.
    fn random_noise_map(&mut self, rng: &mut RandomNumberGenerator, map: &mut TileMap)
        requires
            old(map).wf(),
        ensures
            final(map).wf(),
            border_walled(final(map).tiles@),
    {
        let mut i: usize = 0;
        while i < NUM_TILES
            invariant
                map.wf(),
                i <= NUM_TILES,
                forall|j: int|
                    0 <= j < i && on_border(col_of(j), row_of(j)) ==> #[trigger] map.tiles@[j]
                        == TileType::Wall,
            decreases NUM_TILES - i,
        {
            let p = index_to_point(i);
            if p.x == 0 || p.y == 0 || p.x == SCREEN_WIDTH - 1 || p.y == SCREEN_HEIGHT - 1 {
                map.tiles.set(i, TileType::Wall);
            } else {
                let roll = rng_range(rng, 0, 100);
                if roll < WALL_PERCENT {
                    map.tiles.set(i, TileType::Wall);
                } else {
                    map.tiles.set(i, TileType::Floor);
                }
            }
            i += 1;
        }
    }

    fn wall_count_at(map: &TileMap, x: i32, y: i32) -> (r: usize)
        requires
            map.wf(),
            0 <= x < SCREEN_WIDTH,
            0 <= y < SCREEN_HEIGHT,
        ensures
            r == wall_at(map.tiles@, x as int, y as int),
    {
        if map.tiles[map_idx(x, y)] == TileType::Wall {
            1
        } else {
            0
        }
    }

    /// The number of Walls among the eight tiles around the interior tile `(x, y)`.
    fn count_neighbors(&self, x: i32, y: i32, map: &TileMap) -> (r: usize)
        requires
            map.wf(),
            1 <= x < SCREEN_WIDTH - 1,
            1 <= y < SCREEN_HEIGHT - 1,
        ensures
            r == wall_neighbours(map.tiles@, x as int, y as int),
    {
        Self::wall_count_at(map, x - 1, y - 1) + Self::wall_count_at(map, x, y - 1)
            + Self::wall_count_at(map, x + 1, y - 1) + Self::wall_count_at(map, x - 1, y)
            + Self::wall_count_at(map, x + 1, y) + Self::wall_count_at(map, x - 1, y + 1)
            + Self::wall_count_at(map, x, y + 1) + Self::wall_count_at(map, x + 1, y + 1)
    }

    /// One smoothing pass.
    fn iteration(&mut self, map: &mut TileMap)
        requires
            old(map).wf(),
        ensures
            final(map).wf(),
            forall|i: int| 0 <= i < NUM_TILES ==> #[trigger] final(map).tiles@[i] == smoothed(old(map).tiles@, i),
    {
        let ghost old_tiles = map.tiles@;
        let mut new_tiles: Vec<TileType> = Vec::new();
        let mut k: usize = 0;
        while k < NUM_TILES
            invariant
                map.wf(),
                map.tiles@ == old_tiles,
                k <= NUM_TILES,
                new_tiles@ == old_tiles.subrange(0, k as int),
            decreases NUM_TILES - k,
        {
            new_tiles.push(map.tiles[k]);
            k += 1;
        }
        let mut y: i32 = 1;
        while y < SCREEN_HEIGHT - 1
            invariant
                map.wf(),
                map.tiles@ == old_tiles,
                1 <= y <= SCREEN_HEIGHT - 1,
                new_tiles@.len() == NUM_TILES,
                forall|i: int|
                    0 <= i < NUM_TILES ==> #[trigger] new_tiles@[i] == if !on_border(col_of(i), row_of(i))
                        && row_of(i) < y {
                        smoothed(old_tiles, i)
                    } else {
                        old_tiles[i]
                    },
            decreases SCREEN_HEIGHT - y,
        {
            let mut x: i32 = 1;
            while x < SCREEN_WIDTH - 1
                invariant
                    map.wf(),
                    map.tiles@ == old_tiles,
                    1 <= y < SCREEN_HEIGHT - 1,
                    1 <= x <= SCREEN_WIDTH - 1,
                    new_tiles@.len() == NUM_TILES,
                    forall|i: int|
                        0 <= i < NUM_TILES ==> #[trigger] new_tiles@[i] == if !on_border(col_of(i), row_of(i))
                            && (row_of(i) < y || (row_of(i) == y && col_of(i) < x)) {
                            smoothed(old_tiles, i)
                        } else {
                            old_tiles[i]
                        },
                decreases SCREEN_WIDTH - x,
            {
                let neighbors = self.count_neighbors(x, y, map);
                let idx = map_idx(x, y);
                proof {
                    lemma_idx_of(x as int, y as int);
                }
                let ghost prev = new_tiles@;
                if neighbors > 4 || neighbors == 0 {
                    new_tiles.set(idx, TileType::Wall);
                } else {
                    new_tiles.set(idx, TileType::Floor);
                }
                proof {
                    assert forall|i: int| 0 <= i < NUM_TILES implies #[trigger] new_tiles@[i] == if !on_border(
                        col_of(i),
                        row_of(i),
                    ) && (row_of(i) < y || (row_of(i) == y && col_of(i) < x + 1)) {
                        smoothed(old_tiles, i)
                    } else {
                        old_tiles[i]
                    } by {
                        lemma_coords_of(i);
                        if i != idx {
                            assert(new_tiles@[i] == prev[i]);
                        }
                    }
                }
                x += 1;
            }
            y += 1;
        }
        map.tiles = new_tiles;
    }

    /// The Floor tile closest to the center of the grid, or `None` when
    /// there is no Floor tile.
    pub fn find_start(&self, map: &TileMap) -> (r: Option<Point>)
        requires
            map.wf(),
        ensures
            r matches Some(p) ==> is_closest_floor(map.tiles@, Point { x: 40, y: 25 }, p),
            r is None <==> forall|q: int| 0 <= q < NUM_TILES ==> !#[trigger] is_floor(map.tiles@, q),
    {
        let center = Point::new(SCREEN_WIDTH / 2, SCREEN_HEIGHT / 2);
        let mut best: Option<usize> = None;
        let mut best_d: i64 = 0;
        let mut i: usize = 0;
        while i < NUM_TILES
            invariant
                map.wf(),
                center == (Point { x: 40, y: 25 }),
                i <= NUM_TILES,
                best is None ==> forall|q: int| 0 <= q < i ==> !#[trigger] is_floor(map.tiles@, q),
                best matches Some(b) ==> {
                    &&& b < i
                    &&& is_floor(map.tiles@, b as int)
                    &&& best_d == dist_sq(point_of(b as int), center)
                    &&& forall|q: int|
                        0 <= q < i && #[trigger] is_floor(map.tiles@, q) ==> best_d <= dist_sq(point_of(q), center)
                    &&& forall|q: int|
                        0 <= q < b && #[trigger] is_floor(map.tiles@, q) ==> best_d < dist_sq(point_of(q), center)
                },
            decreases NUM_TILES - i,
        {
            if map.tiles[i] == TileType::Floor {
                let p = index_to_point(i);
                let d = distance_sq(p, center);
                if best.is_none() || d < best_d {
                    best = Some(i);
                    best_d = d;
                }
            }
            i += 1;
        }
        match best {
            Some(b) => {
                let p = index_to_point(b);
                Some(p)
            },
            None => None,
        }
    }

    /// A cave level; the player starts on the Floor tile closest to the
    /// center, and the border is all Wall.
    pub fn new(&mut self, rng: &mut RandomNumberGenerator) -> (r: Result<MapBuilder, GenerationError>)
        ensures
            r matches Ok(mb) ==> {
                &&& mb.is_valid_level()
                &&& mb.rooms@.len() == 0
                &&& exists|noise: Seq<TileType>|
                    noise.len() == NUM_TILES && border_walled(noise) && mb.map.tiles@ == smoothed_n(
                        noise,
                        SMOOTHING_PASSES as nat,
                    )
                &&& border_walled(mb.map.tiles@)
                &&& is_closest_floor(mb.map.tiles@, Point { x: 40, y: 25 }, mb.player_start)
            },
    {
        let mut mb = MapBuilder {
            map: TileMap::new(),
            rooms: Vec::new(),
            monster_spawns: Vec::new(),
            player_start: Point::zero(),
            amulet_start: Point::zero(),
            theme: Theme::Dungeon,
        };
        self.random_noise_map(rng, &mut mb.map);
        let ghost noise = mb.map.tiles@;
        let mut pass: usize = 0;
        while pass < SMOOTHING_PASSES
            invariant
                mb.map.wf(),
                border_walled(mb.map.tiles@),
                pass <= SMOOTHING_PASSES,
                mb.rooms@.len() == 0,
                noise.len() == NUM_TILES,
                border_walled(noise),
                mb.map.tiles@ == smoothed_n(noise, pass as nat),
            decreases SMOOTHING_PASSES - pass,
        {
            let ghost before = mb.map.tiles@;
            self.iteration(&mut mb.map);
            proof {
                assert forall|i: int| 0 <= i < NUM_TILES && on_border(col_of(i), row_of(i)) implies #[trigger] mb.map.tiles@[i]
                    == TileType::Wall by {
                    assert(mb.map.tiles@[i] == smoothed(before, i));
                }
                assert(mb.map.tiles@ =~= smoothed_n(noise, (pass + 1) as nat));
            }
            pass += 1;
        }
        let start = match self.find_start(&mb.map) {
            Some(p) => p,
            None => {
                return Err(GenerationError::Exhausted);
            },
        };
        mb.player_start = start;
        finish_level(mb, rng)
    }
}

} // verus!
