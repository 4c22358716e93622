use vstd::prelude::*;
use bracket_random::prelude::RandomNumberGenerator;
use crate::geometry::{Point, one_step};
use crate::map::{
    TileMap, TileType, NUM_TILES, SCREEN_WIDTH, SCREEN_HEIGHT, idx_of, is_floor, floor_at, floor_count,
    floor_grows, point_in_grid, map_idx, point_of, lemma_coords_of, lemma_idx_of, lemma_floor_count_set,
    lemma_floor_count_shrinks, lemma_floor_count_zero,
};
use crate::distance::{UNREACHABLE, distance_field, is_distance_field, reached, lemma_seed_reached, lemma_reached_kept, lemma_reached_floor};
use crate::map_builder::{MapBuilder, GenerationError, SEARCH_RADIUS, finish_level, start_seeds};
use crate::rng::rng_range;
use crate::themes::Theme;

verus! {

/// How many steps a digger takes at most after its first tile.
pub const STAGGER_DISTANCE: usize = 400;

/// The Floor count that the walks aim for: a third of the grid.
pub const DESIRED_FLOOR: usize = 1333;

/// How many walks after the first may be started before giving up.
pub const MAX_WALKS: u32 = 2000;

/// Every Floor tile is reached from `c` within the search radius.
pub open spec fn all_floor_reached(tiles: Seq<TileType>, c: Point) -> bool {
    forall|i: int| #[trigger] is_floor(tiles, i) ==> reached(tiles, start_seeds(c), SEARCH_RADIUS as nat, i)
}

/// `path` is a digger's walk from `start`: orthogonal steps on the grid,
/// at most `STAGGER_DISTANCE` of them, ending at the step cap or just before
/// a step off the grid.
pub open spec fn is_walk(path: Seq<Point>, start: Point) -> bool {
    &&& 1 <= path.len() <= STAGGER_DISTANCE + 1
    &&& path[0] == start
    &&& forall|k: int| 0 <= k < path.len() ==> point_in_grid(#[trigger] path[k])
    &&& forall|k: int| 1 <= k < path.len() ==> one_step(path[k - 1], #[trigger] path[k])
    &&& path.len() == STAGGER_DISTANCE + 1 || exists|q: Point|
        one_step(path.last(), q) && !point_in_grid(q)
}

/// `new` is `old` with the tiles of `path` made Floor.
pub open spec fn carved_along(old: Seq<TileType>, new: Seq<TileType>, path: Seq<Point>) -> bool {
    &&& new.len() == old.len()
    &&& forall|i: int|
        0 <= i < old.len() ==> #[trigger] new[i] == if path.contains(point_of(i)) {
            TileType::Floor
        } else {
            old[i]
        }
}

/// Carving one more tile of a walk keeps the tiles carved along the walk.
proof fn lemma_carve_extends(
    orig: Seq<TileType>,
    prev: Seq<TileType>,
    new: Seq<TileType>,
    path: Seq<Point>,
    here: Point,
    idx: int,
)
    requires
        orig.len() == NUM_TILES,
        carved_along(orig, prev, path),
        point_in_grid(here),
        idx == idx_of(here.x as int, here.y as int),
        new == prev.update(idx, TileType::Floor),
    ensures
        carved_along(orig, new, path.push(here)),
{
    broadcast use vstd::seq_lib::lemma_seq_contains_after_push;

    lemma_idx_of(here.x as int, here.y as int);
    let np = path.push(here);
    assert forall|i: int| 0 <= i < orig.len() implies #[trigger] new[i] == if np.contains(point_of(i)) {
        TileType::Floor
    } else {
        orig[i]
    } by {
        lemma_coords_of(i);
        if i != idx {
            assert(point_of(i) != here);
            assert(np.contains(point_of(i)) == path.contains(point_of(i)));
        }
    }
}

/// The point one step from `pos` in direction `dir`: 0 left, 1 right, 2 up,
/// anything else down.
fn step_toward(pos: Point, dir: i32) -> (r: Point)
    requires
        point_in_grid(pos),
    ensures
        one_step(pos, r),
        dir == 0 ==> r == (Point { x: (pos.x - 1) as i32, y: pos.y }),
        dir == 1 ==> r == (Point { x: (pos.x + 1) as i32, y: pos.y }),
        dir == 2 ==> r == (Point { x: pos.x, y: (pos.y - 1) as i32 }),
        dir != 0 && dir != 1 && dir != 2 ==> r == (Point { x: pos.x, y: (pos.y + 1) as i32 }),
{
    if dir == 0 {
        Point::new(pos.x - 1, pos.y)
    } else if dir == 1 {
        Point::new(pos.x + 1, pos.y)
    } else if dir == 2 {
        Point::new(pos.x, pos.y - 1)
    } else {
        Point::new(pos.x, pos.y + 1)
    }
}

/// `tiles` is the result of walling off, in `carved`, every tile that the
/// distance field from `center` does not reach, where `carved` is the grid
/// the walks left: Floor at `center` and from `DESIRED_FLOOR` up to one walk
/// more Floor tiles.
pub open spec fn repaired_from(carved: Seq<TileType>, tiles: Seq<TileType>, center: Point) -> bool {
    &&& carved.len() == NUM_TILES
    &&& floor_at(carved, center)
    &&& DESIRED_FLOOR <= floor_count(carved) <= DESIRED_FLOOR + STAGGER_DISTANCE
    &&& forall|i: int|
        0 <= i < NUM_TILES ==> #[trigger] tiles[i] == if reached(carved, start_seeds(center), SEARCH_RADIUS as nat, i) {
            carved[i]
        } else {
            TileType::Wall
        }
}

/// Cave generation by random walks of a digger from the center and from
/// random points until a third of the grid is Floor; then the pockets that
/// the center does not reach are walled off.
pub struct DrunkardsWalkArchitect {}

impl DrunkardsWalkArchitect {
    /// Walks a digger from `start` in random orthogonal steps, making each
    /// tile it stands on Floor, until it leaves the grid or has taken
    /// `STAGGER_DISTANCE` steps.
    fn drunkard(&mut self, start: &Point, rng: &mut RandomNumberGenerator, map: &mut TileMap)
        requires
            old(map).wf(),
            point_in_grid(*start),
        ensures
            final(map).wf(),
            floor_grows(old(map).tiles@, final(map).tiles@),
            floor_at(final(map).tiles@, *start),
            floor_count(final(map).tiles@) <= floor_count(old(map).tiles@) + STAGGER_DISTANCE + 1,
            exists|path: Seq<Point>| is_walk(path, *start) && carved_along(old(map).tiles@, final(map).tiles@, path),
    {
        let ghost orig = map.tiles@;
        let ghost mut path: Seq<Point> = Seq::empty();
        let mut drunkard_pos = *start;
        let mut distance_staggered: usize = 0;
        let mut walking = true;
        let mut first = true;
        while walking
            invariant
                map.wf(),
                orig == old(map).tiles@,
                point_in_grid(*start),
                walking ==> point_in_grid(drunkard_pos),
                first ==> walking && drunkard_pos == *start,
                !first ==> floor_at(map.tiles@, *start),
                floor_grows(orig, map.tiles@),
                distance_staggered <= STAGGER_DISTANCE + 1,
                walking ==> distance_staggered <= STAGGER_DISTANCE,
                walking ==> floor_count(map.tiles@) <= floor_count(orig) + distance_staggered,
                !walking ==> floor_count(map.tiles@) <= floor_count(orig) + STAGGER_DISTANCE + 1,
                carved_along(orig, map.tiles@, path),
                walking ==> path.len() == distance_staggered,
                walking ==> (first <==> path.len() == 0),
                walking && path.len() > 0 ==> path[0] == *start && one_step(path.last(), drunkard_pos),
                walking ==> forall|k: int| 0 <= k < path.len() ==> point_in_grid(#[trigger] path[k]),
                walking ==> forall|k: int| 1 <= k < path.len() ==> one_step(path[k - 1], #[trigger] path[k]),
                !walking ==> is_walk(path, *start),
            decreases STAGGER_DISTANCE + 1 - distance_staggered, if walking { 1int } else { 0 },
        {
            let drunk_idx = map_idx(drunkard_pos.x, drunkard_pos.y);
            proof {
                lemma_floor_count_set(map.tiles@, drunk_idx as int, NUM_TILES as int);
            }
            let ghost prev = map.tiles@;
            let ghost here = drunkard_pos;
            map.tiles.set(drunk_idx, TileType::Floor);
            proof {
                lemma_carve_extends(orig, prev, map.tiles@, path, here, drunk_idx as int);
                path = path.push(here);
            }
            first = false;
            let dir = rng_range(rng, 0, 4);
            drunkard_pos = step_toward(drunkard_pos, dir);
            if !map.in_bounds(drunkard_pos) {
                walking = false;
            } else {
                distance_staggered += 1;
                if distance_staggered > STAGGER_DISTANCE {
                    walking = false;
                }
            }
        }
    }

    /// Walls off every tile that the distance field from `center` does not
    /// reach. Only removes Floor, and keeps `center` Floor.
    fn wall_off_unreachable(map: &mut TileMap, center: Point)
        requires
            old(map).wf(),
            floor_at(old(map).tiles@, center),
        ensures
            final(map).wf(),
            forall|i: int| #[trigger] is_floor(final(map).tiles@, i) ==> is_floor(old(map).tiles@, i),
            floor_at(final(map).tiles@, center),
            floor_count(final(map).tiles@) <= floor_count(old(map).tiles@),
            all_floor_reached(final(map).tiles@, center),
            forall|i: int|
                0 <= i < NUM_TILES ==> #[trigger] final(map).tiles@[i] == if reached(
                    old(map).tiles@,
                    start_seeds(center),
                    SEARCH_RADIUS as nat,
                    i,
                ) {
                    old(map).tiles@[i]
                } else {
                    TileType::Wall
                },
            forall|i: int|
                0 <= i < NUM_TILES ==> (is_floor(final(map).tiles@, i) <==> is_floor(old(map).tiles@, i)
                    && reached(old(map).tiles@, start_seeds(center), SEARCH_RADIUS as nat, i)),
    {
        let ghost orig = map.tiles@;
        let c = map_idx(center.x, center.y);
        let mut seeds: Vec<usize> = Vec::new();
        seeds.push(c);
        let dijkstra_map = distance_field(map, &seeds, SEARCH_RADIUS);
        proof {
            lemma_seed_reached(orig, seeds@, SEARCH_RADIUS as nat, 0);
        }
        let mut i: usize = 0;
        while i < NUM_TILES
            invariant
                map.wf(),
                dijkstra_map@.len() == NUM_TILES,
                is_distance_field(orig, seeds@, SEARCH_RADIUS as nat, dijkstra_map@),
                reached(orig, seeds@, SEARCH_RADIUS as nat, c as int),
                c == idx_of(center.x as int, center.y as int),
                i <= NUM_TILES,
                forall|j: int| #[trigger] is_floor(map.tiles@, j) ==> is_floor(orig, j),
                forall|j: int| 0 <= j < NUM_TILES && dijkstra_map@[j] != UNREACHABLE ==> #[trigger] map.tiles@[j] == orig[j],
                forall|j: int| 0 <= j < i && dijkstra_map@[j] == UNREACHABLE ==> #[trigger] map.tiles@[j] == TileType::Wall,
                forall|j: int| i <= j < NUM_TILES ==> #[trigger] map.tiles@[j] == orig[j],
            decreases NUM_TILES - i,
        {
            let ghost prev = map.tiles@;
            if dijkstra_map[i] == UNREACHABLE {
                map.tiles.set(i, TileType::Wall);
                proof {
                    assert forall|j: int| #[trigger] is_floor(map.tiles@, j) implies is_floor(orig, j) by {
                        assert(j != i);
                        assert(is_floor(prev, j));
                    }
                }
            }
            i += 1;
        }
        proof {
            lemma_floor_count_shrinks(orig, map.tiles@, NUM_TILES as int);
            assert(seeds@ == start_seeds(center));
            assert forall|j: int| 0 <= j < NUM_TILES implies #[trigger] map.tiles@[j] == if reached(
                orig,
                start_seeds(center),
                SEARCH_RADIUS as nat,
                j,
            ) {
                orig[j]
            } else {
                TileType::Wall
            } by {
                if !reached(orig, seeds@, SEARCH_RADIUS as nat, j) {
                    assert(dijkstra_map@[j] == UNREACHABLE);
                }
            }
            assert forall|j: int| 0 <= j < NUM_TILES implies (is_floor(map.tiles@, j) <==> is_floor(orig, j)
                && reached(orig, start_seeds(center), SEARCH_RADIUS as nat, j)) by {
                if reached(orig, seeds@, SEARCH_RADIUS as nat, j) {
                    assert(map.tiles@[j] == orig[j]);
                } else {
                    assert(map.tiles@[j] == TileType::Wall);
                }
            }
            let new_tiles = map.tiles@;
            assert forall|j: int| reached(orig, seeds@, SEARCH_RADIUS as nat, j) implies #[trigger] is_floor(
                new_tiles,
                j,
            ) by {
                lemma_reached_floor(orig, seeds@, SEARCH_RADIUS as nat, j);
            }
            assert forall|i: int| #[trigger] is_floor(new_tiles, i) implies reached(
                new_tiles,
                start_seeds(center),
                SEARCH_RADIUS as nat,
                i,
            ) by {
                assert(new_tiles[i] == TileType::Floor);
                assert(dijkstra_map@[i] != UNREACHABLE);
                lemma_reached_kept(orig, new_tiles, seeds@, SEARCH_RADIUS as nat, SEARCH_RADIUS as nat, i);
            }
        }
    }

    /// A cave level: the walks stop once `DESIRED_FLOOR` tiles are Floor,
    /// overshooting by less than one walk, and the repair that follows can
    /// only remove Floor. The player starts at the center, and every Floor
    /// tile is reached from it.
    pub fn new(&mut self, rng: &mut RandomNumberGenerator) -> (r: Result<MapBuilder, GenerationError>)
        ensures
            r matches Ok(mb) ==> {
                &&& mb.is_valid_level()
                &&& mb.rooms@.len() == 0
                &&& mb.player_start == (Point { x: 40, y: 25 })
                &&& exists|carved: Seq<TileType>| #[trigger] repaired_from(carved, mb.map.tiles@, mb.player_start)
                &&& floor_count(mb.map.tiles@) <= DESIRED_FLOOR + STAGGER_DISTANCE
                &&& all_floor_reached(mb.map.tiles@, mb.player_start)
            },
    {
        let mut mb = MapBuilder {
            map: TileMap::new(),
            rooms: Vec::new(),
            monster_spawns: Vec::new(),
            player_start: Point::zero(),
            amulet_start: Point::zero(),
            theme: Theme::Dungeon,
        };
        mb.fill(TileType::Wall);
        proof {
            lemma_floor_count_zero(mb.map.tiles@, NUM_TILES as int);
        }
        let center = Point::new(SCREEN_WIDTH / 2, SCREEN_HEIGHT / 2);
        self.drunkard(&center, rng, &mut mb.map);
        let mut walks: u32 = 0;
        while mb.map.floor_tiles() < DESIRED_FLOOR
            invariant
                mb.map.wf(),
                center == (Point { x: 40, y: 25 }),
                floor_at(mb.map.tiles@, center),
                mb.rooms@.len() == 0,
                floor_count(mb.map.tiles@) <= DESIRED_FLOOR + STAGGER_DISTANCE,
                walks <= MAX_WALKS,
            decreases MAX_WALKS - walks,
        {
            if walks >= MAX_WALKS {
                return Err(GenerationError::Exhausted);
            }
            walks += 1;
            let x = rng_range(rng, 0, SCREEN_WIDTH);
            let y = rng_range(rng, 0, SCREEN_HEIGHT);
            self.drunkard(&Point::new(x, y), rng, &mut mb.map);
        }
        let ghost carved = mb.map.tiles@;
        Self::wall_off_unreachable(&mut mb.map, center);
        mb.player_start = center;
        assert(repaired_from(carved, mb.map.tiles@, center));
        finish_level(mb, rng)
    }
}

} // verus!
