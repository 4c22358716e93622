use vstd::prelude::*;
use bracket_random::prelude::RandomNumberGenerator;
use crate::geometry::{Point, Rect, overlaps, center_of, covers, dist_sq, distance_sq};
use crate::distance::{
    UNREACHABLE, distance_field, field_of, reached, reached_set, is_seed, is_distance_field,
    lemma_reached_floor, lemma_reached_mono, lemma_seed_reached,
};
use crate::map::{
    TileMap, TileType, SCREEN_WIDTH, SCREEN_HEIGHT, NUM_TILES, in_grid, idx_of, is_floor, floor_at,
    floor_grows, map_idx, point_in_grid, point_of, index_to_point, lemma_idx_of,
    lemma_coords_of,
};
use crate::rng::{rng_range, rng_slice_index};
use crate::themes::Theme;
use crate::rooms::RoomsArchitect;
use crate::automata::CellularAutomataArchitect;
use crate::drunkard::DrunkardsWalkArchitect;
use crate::prefab::apply_prefab;

verus! {

pub const NUM_ROOMS: usize = 20;

/// How many random rectangles room packing may draw before it gives up.
pub const MAX_ROOM_ATTEMPTS: u32 = 10000;

/// How far, in steps, the distance field searches from the player's start.
pub const SEARCH_RADIUS: u32 = 1024;

/// How many monster spawn points a level has.
pub const NUM_MONSTERS: usize = 50;

/// A monster spawns only where the square of its straight-line distance
/// from the start exceeds this (a distance above 10 tiles).
pub const SPAWN_MIN_DIST_SQ: i64 = 100;

/// Why no level came out of a generation run.
#[derive(Clone, Copy, Debug, PartialEq, Eq, Structural)]
pub enum GenerationError {
    /// A strategy did not meet its target within its attempt or step cap.
    Exhausted,
    /// No goal tile, or too few monster spawn tiles, could be found.
    Infeasible,
}

/// A level: its grid, its rooms (empty unless rooms were packed), the
/// monster spawn points, the player's start, the goal and the theme.
pub struct MapBuilder {
    pub map: TileMap,
    pub rooms: Vec<Rect>,
    pub monster_spawns: Vec<Point>,
    pub player_start: Point,
    pub amulet_start: Point,
    pub theme: Theme,
}

/// A room as room packing draws it: its corner at column 1 to 69 and row 1
/// to 39, each side 2 to 9 tiles. It lies inside the grid, off its border.
pub open spec fn valid_room(r: Rect) -> bool {
    &&& 1 <= r.x1 < SCREEN_WIDTH - 10
    &&& 1 <= r.y1 < SCREEN_HEIGHT - 10
    &&& r.x1 + 2 <= r.x2 <= r.x1 + 9
    &&& r.y1 + 2 <= r.y2 <= r.y1 + 9
}

/// The tile at index `i` lies in one of the rooms `rooms[lo..]`.
pub open spec fn in_rooms_from(rooms: Seq<Rect>, lo: int, i: int) -> bool {
    exists|t: int| lo <= t < rooms.len() && covers(#[trigger] rooms[t], point_of(i))
}

/// A room whose every tile is Floor in `tiles` is carved.
pub proof fn lemma_covered_carved(tiles: Seq<TileType>, room: Rect)
    requires
        tiles.len() == NUM_TILES,
        valid_room(room),
        forall|i: int| 0 <= i < NUM_TILES && covers(room, point_of(i)) ==> #[trigger] tiles[i] == TileType::Floor,
    ensures
        room_carved(tiles, room),
{
    assert forall|x: int, y: int| room.x1 <= x < room.x2 && room.y1 <= y < room.y2 implies #[trigger] is_floor(
        tiles,
        idx_of(x, y),
    ) by {
        lemma_idx_of(x, y);
        assert(covers(room, point_of(idx_of(x, y))));
    }
}

/// Every tile of `r` is Floor.
pub open spec fn room_carved(tiles: Seq<TileType>, r: Rect) -> bool {
    forall|x: int, y: int|
        r.x1 <= x < r.x2 && r.y1 <= y < r.y2 ==> #[trigger] is_floor(tiles, idx_of(x, y))
}

pub open spec fn min_of(a: int, b: int) -> int {
    if a <= b {
        a
    } else {
        b
    }
}

pub open spec fn max_of(a: int, b: int) -> int {
    if a <= b {
        b
    } else {
        a
    }
}

/// Every grid tile of row `y` from column `x1` to column `x2` is Floor.
pub open spec fn h_carved(tiles: Seq<TileType>, x1: int, x2: int, y: int) -> bool {
    forall|x: int|
        min_of(x1, x2) <= x <= max_of(x1, x2) && in_grid(x, y) ==> #[trigger] is_floor(
            tiles,
            idx_of(x, y),
        )
}

/// Every grid tile of column `x` from row `y1` to row `y2` is Floor.
pub open spec fn v_carved(tiles: Seq<TileType>, y1: int, y2: int, x: int) -> bool {
    forall|y: int|
        min_of(y1, y2) <= y <= max_of(y1, y2) && in_grid(x, y) ==> #[trigger] is_floor(
            tiles,
            idx_of(x, y),
        )
}

/// `p` lies in column `x` between rows `y1` and `y2`.
pub open spec fn on_column(x: int, y1: int, y2: int, p: Point) -> bool {
    p.x == x && min_of(y1, y2) <= p.y <= max_of(y1, y2)
}

/// `p` lies in row `y` between columns `x1` and `x2`.
pub open spec fn on_row(y: int, x1: int, x2: int, p: Point) -> bool {
    p.y == y && min_of(x1, x2) <= p.x <= max_of(x1, x2)
}

/// `p` lies on the corridor from `a` to `b`: along `a`'s row then `b`'s
/// column when `row_first`, else along `a`'s column then `b`'s row.
pub open spec fn on_corridor(a: Point, b: Point, row_first: bool, p: Point) -> bool {
    if row_first {
        on_row(a.y as int, a.x as int, b.x as int, p) || on_column(b.x as int, a.y as int, b.y as int, p)
    } else {
        on_column(a.x as int, a.y as int, b.y as int, p) || on_row(b.y as int, a.x as int, b.x as int, p)
    }
}

/// `p` lies on one of the corridors joining consecutive rooms among the
/// first `n` of `sorted`, with bends as `bends` says.
pub open spec fn in_corridors(sorted: Seq<Rect>, bends: Seq<bool>, n: int, p: Point) -> bool {
    exists|t: int|
        1 <= t < n && on_corridor(center_of(sorted[t - 1]), center_of(#[trigger] sorted[t]), bends[t], p)
}

/// `new` is `old` with exactly the corridor tiles made Floor, one bend per room.
pub open spec fn corridors_only(old: Seq<TileType>, new: Seq<TileType>, sorted: Seq<Rect>, bends: Seq<bool>) -> bool {
    &&& bends.len() == sorted.len()
    &&& forall|i: int|
        0 <= i < NUM_TILES ==> #[trigger] new[i] == if in_corridors(sorted, bends, sorted.len() as int, point_of(i)) {
            TileType::Floor
        } else {
            old[i]
        }
}

/// An L-shaped path of Floor tiles joins `a` and `b`: along a row then a
/// column, or along a column then a row.
pub open spec fn corridor_carved(tiles: Seq<TileType>, a: Point, b: Point) -> bool {
    (h_carved(tiles, a.x as int, b.x as int, a.y as int) && v_carved(
        tiles,
        a.y as int,
        b.y as int,
        b.x as int,
    )) || (v_carved(tiles, a.y as int, b.y as int, a.x as int) && h_carved(
        tiles,
        a.x as int,
        b.x as int,
        b.y as int,
    ))
}

/// The rooms are pairwise apart.
pub open spec fn rooms_disjoint(rooms: Seq<Rect>) -> bool {
    forall|i: int, j: int| 0 <= i < j < rooms.len() ==> !overlaps(#[trigger] rooms[i], #[trigger] rooms[j])
}

/// `sorted` is `rooms` rearranged by `perm`, and rooms whose centers share
/// a column keep their order.
pub open spec fn stable_arrangement(sorted: Seq<Rect>, rooms: Seq<Rect>, perm: Seq<int>) -> bool {
    &&& perm.len() == sorted.len() == rooms.len()
    &&& forall|k: int| 0 <= k < sorted.len() ==> 0 <= #[trigger] perm[k] < rooms.len() && sorted[k] == rooms[perm[k]]
    &&& forall|a: int, b: int| 0 <= a < b < sorted.len() ==> #[trigger] perm[a] != #[trigger] perm[b]
    &&& forall|a: int, b: int|
        0 <= a < b < sorted.len() && center_of(sorted[a]).x == center_of(sorted[b]).x ==> #[trigger] perm[a]
            < #[trigger] perm[b]
}

/// `sorted` holds the rooms of `rooms`, ordered by the column of their centers.
pub open spec fn sorted_by_center_x(sorted: Seq<Rect>, rooms: Seq<Rect>) -> bool {
    &&& sorted.len() == rooms.len()
    &&& forall|i: int| 0 <= i < sorted.len() ==> rooms.contains(#[trigger] sorted[i])
    &&& forall|i: int| 0 <= i < rooms.len() ==> sorted.contains(#[trigger] rooms[i])
    &&& exists|perm: Seq<int>| #[trigger] stable_arrangement(sorted, rooms, perm)
    &&& forall|i: int, j: int|
        0 <= i < j < sorted.len() ==> center_of(#[trigger] sorted[i]).x <= center_of(
            #[trigger] sorted[j],
        ).x
}

/// Consecutive rooms of `sorted` are joined by carved corridors.
pub open spec fn corridors_join(tiles: Seq<TileType>, sorted: Seq<Rect>) -> bool {
    forall|i: int|
        1 <= i < sorted.len() ==> corridor_carved(tiles, center_of(sorted[i - 1]), center_of(#[trigger] sorted[i]))
}

/// The seed list of a distance field rooted at `p`.
pub open spec fn start_seeds(p: Point) -> Seq<usize> {
    seq![idx_of(p.x as int, p.y as int) as usize]
}

pub open spec fn idx_of_point(p: Point) -> int {
    idx_of(p.x as int, p.y as int)
}

/// The distance field rooted at `p` that goal placement uses.
pub open spec fn start_field(tiles: Seq<TileType>, p: Point) -> Seq<u32> {
    field_of(tiles, start_seeds(p), SEARCH_RADIUS as nat)
}

/// `s` may hold a monster: a Floor tile farther than the threshold from `start`.
pub open spec fn spawn_ok(tiles: Seq<TileType>, start: Point, s: Point) -> bool {
    floor_at(tiles, s) && dist_sq(s, start) > SPAWN_MIN_DIST_SQ
}

/// Number of tiles among the first `n` that may hold a monster.
pub open spec fn admissible_upto(tiles: Seq<TileType>, start: Point, n: int) -> int
    decreases n,
{
    if n <= 0 {
        0
    } else {
        admissible_upto(tiles, start, n - 1) + if spawn_ok(tiles, start, point_of(n - 1)) {
            1int
        } else {
            0
        }
    }
}

pub open spec fn admissible_count(tiles: Seq<TileType>, start: Point) -> int {
    admissible_upto(tiles, start, NUM_TILES as int)
}

/// Every spawn point may hold a monster and no two are the same.
pub open spec fn spawns_valid(tiles: Seq<TileType>, start: Point, spawns: Seq<Point>) -> bool {
    &&& forall|i: int| 0 <= i < spawns.len() ==> spawn_ok(tiles, start, #[trigger] spawns[i])
    &&& forall|i: int, j: int| 0 <= i < j < spawns.len() ==> #[trigger] spawns[i] != #[trigger] spawns[j]
}

/// `goal` is the tile farthest from `start` along Floor tiles, the first in
/// index order among equals, and not `start` itself.
pub open spec fn is_farthest(tiles: Seq<TileType>, start: Point, goal: Point) -> bool {
    let d = start_field(tiles, start);
    let g = idx_of_point(goal);
    &&& point_in_grid(goal)
    &&& d[g] != UNREACHABLE
    &&& d[g] > 0
    &&& forall|q: int| 0 <= q < NUM_TILES && #[trigger] d[q] != UNREACHABLE ==> d[q] <= d[g]
    &&& forall|q: int| 0 <= q < g && #[trigger] d[q] != UNREACHABLE ==> d[q] < d[g]
}

/// No tile but the start itself is reached from the start.
pub open spec fn only_start_reached(tiles: Seq<TileType>, start: Point) -> bool {
    forall|q: int|
        0 <= q < NUM_TILES && q != idx_of_point(start) ==> #[trigger] start_field(tiles, start)[q]
            == UNREACHABLE
}

/// In the field rooted at `start`, distance 0 belongs to the start alone,
/// and the start has it when it is Floor.
pub proof fn lemma_start_field_zero(tiles: Seq<TileType>, start: Point, q: int)
    requires
        tiles.len() == NUM_TILES,
        point_in_grid(start),
        0 <= q < NUM_TILES,
        is_distance_field(tiles, start_seeds(start), SEARCH_RADIUS as nat, start_field(tiles, start)),
    ensures
        start_field(tiles, start)[q] == 0 ==> q == idx_of_point(start),
        floor_at(tiles, start) ==> start_field(tiles, start)[idx_of_point(start)] == 0,
{
    let d = start_field(tiles, start);
    let seeds = start_seeds(start);
    lemma_idx_of(start.x as int, start.y as int);
    if d[q] == 0 {
        assert(reached(tiles, seeds, 0, q));
        assert(reached_set(tiles, seeds, 0).contains(q));
        assert(is_seed(seeds, q));
    }
    if floor_at(tiles, start) {
        let s = idx_of_point(start);
        assert(seeds[0] as int == s);
        lemma_seed_reached(tiles, seeds, SEARCH_RADIUS as nat, 0);
        if d[s] != 0 {
            assert(d[s] != UNREACHABLE);
            lemma_reached_mono(tiles, seeds, 0, (d[s] - 1) as nat, s);
        }
    }
}

/// When every tile on a corridor is Floor, the corridor is carved.
pub proof fn lemma_corridor_of_cells(tiles: Seq<TileType>, a: Point, b: Point, row_first: bool)
    requires
        tiles.len() == NUM_TILES,
        forall|k: int|
            0 <= k < NUM_TILES && on_corridor(a, b, row_first, point_of(k)) ==> #[trigger] tiles[k]
                == TileType::Floor,
    ensures
        corridor_carved(tiles, a, b),
{
    assert forall|x: int, y: int| in_grid(x, y) && on_corridor(a, b, row_first, Point { x: x as i32, y: y as i32 })
        implies #[trigger] is_floor(tiles, idx_of(x, y)) by {
        lemma_idx_of(x, y);
        assert(point_of(idx_of(x, y)) == Point { x: x as i32, y: y as i32 });
    }
    if row_first {
        assert forall|x: int|
            min_of(a.x as int, b.x as int) <= x <= max_of(a.x as int, b.x as int) && in_grid(x, a.y as int)
            implies #[trigger] is_floor(tiles, idx_of(x, a.y as int)) by {
            assert(on_corridor(a, b, row_first, Point { x: x as i32, y: a.y }));
        }
        assert forall|y: int|
            min_of(a.y as int, b.y as int) <= y <= max_of(a.y as int, b.y as int) && in_grid(b.x as int, y)
            implies #[trigger] is_floor(tiles, idx_of(b.x as int, y)) by {
            assert(on_corridor(a, b, row_first, Point { x: b.x, y: y as i32 }));
        }
    } else {
        assert forall|y: int|
            min_of(a.y as int, b.y as int) <= y <= max_of(a.y as int, b.y as int) && in_grid(a.x as int, y)
            implies #[trigger] is_floor(tiles, idx_of(a.x as int, y)) by {
            assert(on_corridor(a, b, row_first, Point { x: a.x, y: y as i32 }));
        }
        assert forall|x: int|
            min_of(a.x as int, b.x as int) <= x <= max_of(a.x as int, b.x as int) && in_grid(x, b.y as int)
            implies #[trigger] is_floor(tiles, idx_of(x, b.y as int)) by {
            assert(on_corridor(a, b, row_first, Point { x: x as i32, y: b.y }));
        }
    }
}

/// Carving only adds Floor, so carved rooms stay carved.
pub proof fn lemma_room_persists(a: Seq<TileType>, b: Seq<TileType>, r: Rect)
    requires
        floor_grows(a, b),
        room_carved(a, r),
    ensures
        room_carved(b, r),
{
}

/// A copy of `rooms` sorted by the column of their centers; rooms whose
/// centers share a column keep their order.
fn sort_by_center_x(rooms: &Vec<Rect>) -> (r: Vec<Rect>)
    ensures
        sorted_by_center_x(r@, rooms@),
{
    let mut r: Vec<Rect> = Vec::new();
    let n = rooms.len();
    let mut k: usize = 0;
    while k < n
        invariant
            n == rooms@.len(),
            k <= n,
            r@ == rooms@.subrange(0, k as int),
        decreases n - k,
    {
        r.push(rooms[k]);
        k += 1;
    }
    assert(r@ == rooms@);
    let ghost mut perm: Seq<int> = Seq::new(n as nat, |k: int| k);
    let mut i: usize = 1;
    while i < n
        invariant
            n == rooms@.len(),
            r@.len() == n,
            perm.len() == n,
            forall|k: int| 0 <= k < n ==> 0 <= #[trigger] perm[k] < n && r@[k] == rooms@[perm[k]],
            forall|a: int, b: int| 0 <= a < b < n ==> #[trigger] perm[a] != #[trigger] perm[b],
            forall|k: int| i <= k < n ==> #[trigger] perm[k] == k,
            forall|k: int| 0 <= k < i && k < n ==> #[trigger] perm[k] < i,
            forall|a: int, b: int|
                0 <= a < b < i && b < n && center_of(r@[a]).x == center_of(r@[b]).x ==> #[trigger] perm[a]
                    < #[trigger] perm[b],
            1 <= i || n == 0,
            i <= n || n == 0,
            forall|a: int, b: int|
                0 <= a < b < i && b < n ==> center_of(#[trigger] r@[a]).x <= center_of(#[trigger] r@[b]).x,
        decreases n - i,
    {
        let mut j: usize = i;
        while j > 0 && r[j - 1].center().x > r[j].center().x
            invariant
                n == rooms@.len(),
                r@.len() == n,
                0 <= j <= i < n,
                perm.len() == n,
                forall|k: int| 0 <= k < n ==> 0 <= #[trigger] perm[k] < n && r@[k] == rooms@[perm[k]],
                forall|a: int, b: int| 0 <= a < b < n ==> #[trigger] perm[a] != #[trigger] perm[b],
                perm[j as int] == i,
                forall|k: int| i < k < n ==> #[trigger] perm[k] == k,
                forall|k: int| 0 <= k <= i && k != j ==> #[trigger] perm[k] < i,
                forall|a: int, b: int|
                    0 <= a < b <= i && a != j && b != j && center_of(r@[a]).x == center_of(r@[b]).x
                        ==> #[trigger] perm[a] < #[trigger] perm[b],
                forall|a: int, b: int|
                    0 <= a < b <= i && a != j && b != j ==> center_of(#[trigger] r@[a]).x <= center_of(
                        #[trigger] r@[b],
                    ).x,
                forall|b: int| j < b <= i ==> center_of(r@[j as int]).x < center_of(#[trigger] r@[b]).x,
            decreases j,
        {
            let ghost prev = r@;
            let ghost pp = perm;
            let lo = r[j - 1];
            let hi = r[j];
            r.set(j - 1, hi);
            r.set(j, lo);
            proof {
                perm = pp.update(j - 1, pp[j as int]).update(j as int, pp[j - 1]);
                assert forall|a: int, b: int| 0 <= a < b < n implies #[trigger] perm[a] != #[trigger] perm[b] by {
                    let a0 = if a == j - 1 { j as int } else if a == j { j - 1 } else { a };
                    let b0 = if b == j - 1 { j as int } else if b == j { j - 1 } else { b };
                    assert(perm[a] == pp[a0] && perm[b] == pp[b0]);
                }
                assert forall|k: int| 0 <= k < n implies 0 <= #[trigger] perm[k] < n && r@[k] == rooms@[perm[k]] by {
                    if k == j - 1 {
                        assert(r@[k] == prev[j as int]);
                    } else if k == j {
                        assert(r@[k] == prev[j - 1]);
                    } else {
                        assert(r@[k] == prev[k]);
                    }
                }
                assert forall|a: int, b: int|
                    0 <= a < b <= i && a != j - 1 && b != j - 1 && center_of(r@[a]).x == center_of(r@[b]).x
                        implies #[trigger] perm[a] < #[trigger] perm[b] by {
                    let a0 = if a == j { j - 1 } else { a };
                    let b0 = if b == j { j - 1 } else { b };
                    assert(r@[a] == prev[a0] && r@[b] == prev[b0]);
                    assert(perm[a] == pp[a0] && perm[b] == pp[b0]);
                }
                assert forall|a: int, b: int|
                    0 <= a < b <= i && a != j - 1 && b != j - 1 implies center_of(#[trigger] r@[a]).x
                    <= center_of(#[trigger] r@[b]).x by {
                    if a == j {
                        assert(r@[a] == prev[j - 1]);
                        assert(r@[b] == prev[b]);
                    } else if b == j {
                        assert(r@[b] == prev[j - 1]);
                        assert(r@[a] == prev[a]);
                    } else {
                        assert(r@[a] == prev[a]);
                        assert(r@[b] == prev[b]);
                    }
                }
                assert forall|b: int| j - 1 < b <= i implies center_of(r@[j - 1]).x < center_of(
                    #[trigger] r@[b],
                ).x by {
                    if b == j {
                        assert(r@[b] == prev[j - 1]);
                    } else {
                        assert(r@[b] == prev[b]);
                    }
                }
                assert forall|k: int| 0 <= k <= i && k != j - 1 implies #[trigger] perm[k] < i by {
                    if k == j {
                        assert(perm[k] == pp[j - 1]);
                    } else {
                        assert(perm[k] == pp[k]);
                    }
                }
            }
            j -= 1;
        }
        proof {
            assert forall|a: int, b: int|
                0 <= a < b < i + 1 && b < n implies center_of(#[trigger] r@[a]).x <= center_of(
                #[trigger] r@[b],
            ).x by {
                if b == j && a < j {
                    assert(center_of(r@[a]).x <= center_of(r@[j - 1]).x || a == j - 1);
                }
            }
            assert forall|a: int, b: int|
                0 <= a < b < i + 1 && b < n && center_of(r@[a]).x == center_of(r@[b]).x implies #[trigger] perm[a]
                < #[trigger] perm[b] by {
                if b == j {
                    assert(perm[a] < i);
                } else if a == j {
                    assert(center_of(r@[a]).x < center_of(r@[b]).x);
                }
            }
        }
        i += 1;
    }
    proof {
        assert(stable_arrangement(r@, rooms@, perm));
        assert forall|p: int| 0 <= p < n implies rooms@.contains(#[trigger] r@[p]) by {
            assert(rooms@[perm[p]] == r@[p]);
        }
        lemma_perm_onto(perm, n as int);
        assert forall|q: int| 0 <= q < n implies r@.contains(#[trigger] rooms@[q]) by {
            assert(perm.contains(q));
            let k = choose|k: int| 0 <= k < n && perm[k] == q;
            assert(r@[k] == rooms@[q]);
        }
    }
    r
}

/// An injective map of `0..n` into itself reaches every value.
proof fn lemma_perm_onto(perm: Seq<int>, n: int)
    requires
        perm.len() == n,
        forall|k: int| 0 <= k < n ==> 0 <= #[trigger] perm[k] < n,
        forall|a: int, b: int| 0 <= a < b < n ==> #[trigger] perm[a] != #[trigger] perm[b],
    ensures
        forall|q: int| 0 <= q < n ==> #[trigger] perm.contains(q),
{
    broadcast use vstd::seq_lib::group_seq_properties, vstd::set::group_set_axioms;

    let s = perm.to_set();
    assert(perm.no_duplicates()) by {
        assert forall|a: int, b: int| 0 <= a < perm.len() && 0 <= b < perm.len() && a != b implies perm[a]
            != perm[b] by {
            if a < b {
                assert(perm[a] != perm[b]);
            } else {
                assert(perm[b] != perm[a]);
            }
        }
    }
    perm.unique_seq_to_set();
    let full = vstd::set_lib::set_int_range(0, n);
    vstd::set_lib::lemma_int_range(0, n);
    assert(s.subset_of(full)) by {
        assert forall|v: int| s.contains(v) implies full.contains(v) by {
            assert(perm.contains(v));
            let k = choose|k: int| 0 <= k < perm.len() && perm[k] == v;
        }
    }
    vstd::seq_lib::seq_to_set_is_finite(perm);
    vstd::set_lib::lemma_subset_equality(s, full);
    assert forall|q: int| 0 <= q < n implies #[trigger] perm.contains(q) by {
        assert(full.contains(q));
        assert(s.contains(q));
    }
}

impl MapBuilder {
    /// Generates a level: picks one of the three strategies at random, runs
    /// it, places the goal and the monsters, overlays the fortress and picks
    /// a theme. Every level it returns is valid.
    pub fn new(rng: &mut RandomNumberGenerator) -> (r: Result<MapBuilder, GenerationError>)
        ensures
            r matches Ok(mb) ==> mb.is_valid_level(),
    {
        let choice = rng_range(rng, 0, 3);
        let built = if choice == 0 {
            let mut architect = DrunkardsWalkArchitect {};
            architect.new(rng)
        } else if choice == 1 {
            let mut architect = RoomsArchitect {};
            architect.new(rng)
        } else {
            let mut architect = CellularAutomataArchitect {};
            architect.new(rng)
        };
        let mut mb = match built {
            Ok(mb) => mb,
            Err(e) => {
                return Err(e);
            },
        };
        apply_prefab(&mut mb, rng);
        mb.theme = if rng_range(rng, 0, 2) == 0 {
            Theme::Dungeon
        } else {
            Theme::Forest
        };
        Ok(mb)
    }

    /// What every finished level satisfies: the start and the goal are Floor,
    /// the goal is reached from the start, and the spawn points are valid.
    pub open spec fn is_valid_level(&self) -> bool {
        let tiles = self.map.tiles@;
        &&& self.map.wf()
        &&& floor_at(tiles, self.player_start)
        &&& floor_at(tiles, self.amulet_start)
        &&& self.amulet_start != self.player_start
        &&& reached(tiles, start_seeds(self.player_start), SEARCH_RADIUS as nat, idx_of_point(self.amulet_start))
        &&& spawns_valid(tiles, self.player_start, self.monster_spawns@)
        &&& self.monster_spawns@.len() == NUM_MONSTERS
    }

    /// The grid is well formed and the other fields are those of `other`.
    pub open spec fn same_but_tiles(&self, other: &MapBuilder) -> bool {
        &&& self.map.wf()
        &&& self.rooms@ == other.rooms@
        &&& self.monster_spawns@ == other.monster_spawns@
        &&& self.player_start == other.player_start
        &&& self.amulet_start == other.amulet_start
        &&& self.theme == other.theme
    }

    pub(crate) fn fill(&mut self, tile: TileType)
        requires
            old(self).map.wf(),
        ensures
            final(self).same_but_tiles(old(self)),
            forall|i: int| 0 <= i < NUM_TILES ==> final(self).map.tiles@[i] == tile,
    {
        self.map.fill(tile);
    }

    /// Sets every tile of `room` to Floor.
    fn carve_room(&mut self, room: Rect)
        requires
            old(self).map.wf(),
            valid_room(room),
        ensures
            final(self).same_but_tiles(old(self)),
            forall|i: int|
                0 <= i < NUM_TILES ==> #[trigger] final(self).map.tiles@[i] == if covers(room, point_of(i)) {
                    TileType::Floor
                } else {
                    old(self).map.tiles@[i]
                },
    {
        let ghost start = self.map.tiles@;
        let mut y = room.y1;
        while y < room.y2
            invariant
                self.same_but_tiles(old(self)),
                valid_room(room),
                room.y1 <= y <= room.y2,
                start == old(self).map.tiles@,
                forall|i: int|
                    0 <= i < NUM_TILES ==> #[trigger] self.map.tiles@[i] == if covers(room, point_of(i))
                        && point_of(i).y < y {
                        TileType::Floor
                    } else {
                        start[i]
                    },
            decreases room.y2 - y,
        {
            let mut x = room.x1;
            while x < room.x2
                invariant
                    self.same_but_tiles(old(self)),
                    valid_room(room),
                    room.y1 <= y < room.y2,
                    room.x1 <= x <= room.x2,
                    start == old(self).map.tiles@,
                    forall|i: int|
                        0 <= i < NUM_TILES ==> #[trigger] self.map.tiles@[i] == if covers(room, point_of(i))
                            && (point_of(i).y < y || (point_of(i).y == y && point_of(i).x < x)) {
                            TileType::Floor
                        } else {
                            start[i]
                        },
                decreases room.x2 - x,
            {
                let idx = map_idx(x, y);
                let ghost prev = self.map.tiles@;
                self.map.tiles.set(idx, TileType::Floor);
                proof {
                    lemma_idx_of(x as int, y as int);
                    assert forall|i: int| 0 <= i < NUM_TILES implies #[trigger] self.map.tiles@[i] == if covers(
                        room,
                        point_of(i),
                    ) && (point_of(i).y < y || (point_of(i).y == y && point_of(i).x < x + 1)) {
                        TileType::Floor
                    } else {
                        start[i]
                    } by {
                        lemma_coords_of(i);
                        if i != idx {
                            assert(self.map.tiles@[i] == prev[i]);
                            assert(point_of(i) != Point { x, y });
                        }
                    }
                }
                x += 1;
            }
            y += 1;
        }
    }

    /// Places `room` when it overlaps none of the rooms placed so far:
    /// carves it and appends it to the room list. Says whether it did.
    pub fn place_room(&mut self, room: Rect) -> (placed: bool)
        requires
            old(self).map.wf(),
            valid_room(room),
        ensures
            final(self).map.wf(),
            final(self).monster_spawns@ == old(self).monster_spawns@,
            final(self).player_start == old(self).player_start,
            final(self).amulet_start == old(self).amulet_start,
            final(self).theme == old(self).theme,
            placed == forall|t: int| 0 <= t < old(self).rooms@.len() ==> !overlaps(#[trigger] old(self).rooms@[t], room),
            final(self).rooms@ == if placed {
                old(self).rooms@.push(room)
            } else {
                old(self).rooms@
            },
            forall|i: int|
                0 <= i < NUM_TILES ==> #[trigger] final(self).map.tiles@[i] == if placed && covers(room, point_of(i)) {
                    TileType::Floor
                } else {
                    old(self).map.tiles@[i]
                },
    {
        let mut overlap = false;
        let mut j: usize = 0;
        while j < self.rooms.len()
            invariant
                j <= self.rooms@.len(),
                overlap <==> exists|t: int| 0 <= t < j && overlaps(#[trigger] self.rooms@[t], room),
            decreases self.rooms@.len() - j,
        {
            if self.rooms[j].intersect(&room) {
                overlap = true;
            }
            j += 1;
        }
        if overlap {
            false
        } else {
            self.carve_room(room);
            self.rooms.push(room);
            true
        }
    }

    /// Draws random rooms and places each one that overlaps none placed
    /// before, until there are `NUM_ROOMS`; returns the number of draws.
    /// Fewer rooms come out only when all `MAX_ROOM_ATTEMPTS` draws were used.
    pub(crate) fn build_random_rooms(&mut self, rng: &mut RandomNumberGenerator) -> (attempts: u32)
        requires
            old(self).map.wf(),
            old(self).rooms@.len() <= NUM_ROOMS,
            rooms_disjoint(old(self).rooms@),
            forall|i: int| 0 <= i < old(self).rooms@.len() ==> valid_room(#[trigger] old(self).rooms@[i]),
        ensures
            final(self).map.wf(),
            final(self).monster_spawns@ == old(self).monster_spawns@,
            final(self).player_start == old(self).player_start,
            final(self).amulet_start == old(self).amulet_start,
            final(self).theme == old(self).theme,
            attempts <= MAX_ROOM_ATTEMPTS,
            final(self).rooms@.len() < NUM_ROOMS ==> attempts == MAX_ROOM_ATTEMPTS,
            final(self).rooms@.len() <= NUM_ROOMS,
            old(self).rooms@.len() <= final(self).rooms@.len(),
            final(self).rooms@.subrange(0, old(self).rooms@.len() as int) == old(self).rooms@,
            rooms_disjoint(final(self).rooms@),
            forall|i: int| 0 <= i < final(self).rooms@.len() ==> valid_room(#[trigger] final(self).rooms@[i]),
            forall|i: int|
                old(self).rooms@.len() <= i < final(self).rooms@.len() ==> room_carved(
                    final(self).map.tiles@,
                    #[trigger] final(self).rooms@[i],
                ),
            forall|i: int|
                0 <= i < NUM_TILES ==> #[trigger] final(self).map.tiles@[i] == if in_rooms_from(
                    final(self).rooms@,
                    old(self).rooms@.len() as int,
                    i,
                ) {
                    TileType::Floor
                } else {
                    old(self).map.tiles@[i]
                },
    {
        let ghost lo = self.rooms@.len() as int;
        let ghost orig = self.map.tiles@;
        let mut attempts: u32 = 0;
        while self.rooms.len() < NUM_ROOMS && attempts < MAX_ROOM_ATTEMPTS
            invariant
                self.map.wf(),
                self.monster_spawns@ == old(self).monster_spawns@,
                self.player_start == old(self).player_start,
                self.amulet_start == old(self).amulet_start,
                self.theme == old(self).theme,
                lo == old(self).rooms@.len(),
                orig == old(self).map.tiles@,
                lo <= self.rooms@.len() <= NUM_ROOMS,
                self.rooms@.subrange(0, lo) == old(self).rooms@,
                rooms_disjoint(self.rooms@),
                forall|i: int| 0 <= i < self.rooms@.len() ==> valid_room(#[trigger] self.rooms@[i]),
                forall|i: int| lo <= i < self.rooms@.len() ==> room_carved(self.map.tiles@, #[trigger] self.rooms@[i]),
                forall|i: int|
                    0 <= i < NUM_TILES ==> #[trigger] self.map.tiles@[i] == if in_rooms_from(self.rooms@, lo, i) {
                        TileType::Floor
                    } else {
                        orig[i]
                    },
                attempts <= MAX_ROOM_ATTEMPTS,
            decreases MAX_ROOM_ATTEMPTS - attempts,
        {
            attempts += 1;
            let x = rng_range(rng, 1, SCREEN_WIDTH - 10);
            let y = rng_range(rng, 1, SCREEN_HEIGHT - 10);
            let w = rng_range(rng, 2, 10);
            let h = rng_range(rng, 2, 10);
            let room = Rect::with_size(x, y, w, h);
            let ghost before_rooms = self.rooms@;
            let ghost before_tiles = self.map.tiles@;
            let placed = self.place_room(room);
            proof {
                if placed {
                    assert forall|a: int, b: int|
                        0 <= a < b < self.rooms@.len() implies !overlaps(
                        #[trigger] self.rooms@[a],
                        #[trigger] self.rooms@[b],
                    ) by {
                        if b == self.rooms@.len() - 1 {
                            assert(!overlaps(before_rooms[a], room));
                        } else {
                            assert(self.rooms@[a] == before_rooms[a] && self.rooms@[b] == before_rooms[b]);
                        }
                    }
                    assert(self.rooms@.subrange(0, lo) == before_rooms.subrange(0, lo));
                    assert forall|i: int| 0 <= i < NUM_TILES implies #[trigger] self.map.tiles@[i] == if in_rooms_from(
                        self.rooms@,
                        lo,
                        i,
                    ) {
                        TileType::Floor
                    } else {
                        orig[i]
                    } by {
                        if in_rooms_from(before_rooms, lo, i) {
                            let t = choose|t: int| lo <= t < before_rooms.len() && covers(#[trigger] before_rooms[t], point_of(i));
                            assert(self.rooms@[t] == before_rooms[t]);
                        } else if covers(room, point_of(i)) {
                            assert(self.rooms@[self.rooms@.len() - 1] == room);
                        } else if in_rooms_from(self.rooms@, lo, i) {
                            let t = choose|t: int| lo <= t < self.rooms@.len() && covers(#[trigger] self.rooms@[t], point_of(i));
                            assert(self.rooms@[t] == before_rooms[t]);
                        }
                    }
                    assert forall|i: int|
                        0 <= i < NUM_TILES && covers(room, point_of(i)) implies #[trigger] self.map.tiles@[i]
                        == TileType::Floor by {}
                    lemma_covered_carved(self.map.tiles@, room);
                    assert forall|k: int| lo <= k < self.rooms@.len() implies room_carved(
                        self.map.tiles@,
                        #[trigger] self.rooms@[k],
                    ) by {
                        if k < self.rooms@.len() - 1 {
                            assert(self.rooms@[k] == before_rooms[k]);
                            assert(floor_grows(before_tiles, self.map.tiles@));
                            lemma_room_persists(before_tiles, self.map.tiles@, before_rooms[k]);
                        }
                    }
                }
            }
        }
        attempts
    }

    /// Sets to Floor every grid tile of column `x` between rows `y1` and `y2`.
    fn apply_vertical_tunnel(&mut self, y1: i32, y2: i32, x: i32)
        requires
            old(self).map.wf(),
        ensures
            final(self).same_but_tiles(old(self)),
            forall|i: int|
                0 <= i < NUM_TILES ==> #[trigger] final(self).map.tiles@[i] == if on_column(
                    x as int,
                    y1 as int,
                    y2 as int,
                    point_of(i),
                ) {
                    TileType::Floor
                } else {
                    old(self).map.tiles@[i]
                },
    {
        let lo: i64 = if y1 <= y2 { y1 as i64 } else { y2 as i64 };
        let hi: i64 = if y1 <= y2 { y2 as i64 } else { y1 as i64 };
        let mut y: i64 = lo;
        while y <= hi
            invariant
                self.same_but_tiles(old(self)),
                lo == min_of(y1 as int, y2 as int),
                hi == max_of(y1 as int, y2 as int),
                lo <= y <= hi + 1,
                forall|i: int|
                    0 <= i < NUM_TILES ==> #[trigger] self.map.tiles@[i] == if on_column(
                        x as int,
                        y1 as int,
                        y2 as int,
                        point_of(i),
                    ) && point_of(i).y < y {
                        TileType::Floor
                    } else {
                        old(self).map.tiles@[i]
                    },
            decreases hi + 1 - y,
        {
            let ghost prev = self.map.tiles@;
            if let Some(idx) = self.map.try_idx(Point::new(x, y as i32)) {
                self.map.tiles.set(idx, TileType::Floor);
                proof {
                    lemma_idx_of(x as int, y as int);
                }
            }
            proof {
                assert forall|i: int| 0 <= i < NUM_TILES implies #[trigger] self.map.tiles@[i] == if on_column(
                    x as int,
                    y1 as int,
                    y2 as int,
                    point_of(i),
                ) && point_of(i).y < y + 1 {
                    TileType::Floor
                } else {
                    old(self).map.tiles@[i]
                } by {
                    lemma_coords_of(i);
                    if !(point_of(i).x == x && point_of(i).y == y) {
                        assert(self.map.tiles@[i] == prev[i]);
                    }
                }
            }
            y += 1;
        }
    }

    /// Sets to Floor every grid tile of row `y` between columns `x1` and `x2`.
    fn apply_horizontal_tunnel(&mut self, x1: i32, x2: i32, y: i32)
        requires
            old(self).map.wf(),
        ensures
            final(self).same_but_tiles(old(self)),
            forall|i: int|
                0 <= i < NUM_TILES ==> #[trigger] final(self).map.tiles@[i] == if on_row(
                    y as int,
                    x1 as int,
                    x2 as int,
                    point_of(i),
                ) {
                    TileType::Floor
                } else {
                    old(self).map.tiles@[i]
                },
    {
        let lo: i64 = if x1 <= x2 { x1 as i64 } else { x2 as i64 };
        let hi: i64 = if x1 <= x2 { x2 as i64 } else { x1 as i64 };
        let mut x: i64 = lo;
        while x <= hi
            invariant
                self.same_but_tiles(old(self)),
                lo == min_of(x1 as int, x2 as int),
                hi == max_of(x1 as int, x2 as int),
                lo <= x <= hi + 1,
                forall|i: int|
                    0 <= i < NUM_TILES ==> #[trigger] self.map.tiles@[i] == if on_row(
                        y as int,
                        x1 as int,
                        x2 as int,
                        point_of(i),
                    ) && point_of(i).x < x {
                        TileType::Floor
                    } else {
                        old(self).map.tiles@[i]
                    },
            decreases hi + 1 - x,
        {
            let ghost prev = self.map.tiles@;
            if let Some(idx) = self.map.try_idx(Point::new(x as i32, y)) {
                self.map.tiles.set(idx, TileType::Floor);
                proof {
                    lemma_idx_of(x as int, y as int);
                }
            }
            proof {
                assert forall|i: int| 0 <= i < NUM_TILES implies #[trigger] self.map.tiles@[i] == if on_row(
                    y as int,
                    x1 as int,
                    x2 as int,
                    point_of(i),
                ) && point_of(i).x < x + 1 {
                    TileType::Floor
                } else {
                    old(self).map.tiles@[i]
                } by {
                    lemma_coords_of(i);
                    if !(point_of(i).x == x && point_of(i).y == y) {
                        assert(self.map.tiles@[i] == prev[i]);
                    }
                }
            }
            x += 1;
        }
    }

    /// Joins the rooms, taken in order of the column of their centers, each
    /// to the next by an L-shaped corridor whose bend is chosen at random.
    /// Returns that order; only corridor tiles change.
    pub(crate) fn build_corridors(&mut self, rng: &mut RandomNumberGenerator) -> (sorted: Vec<Rect>)
        requires
            old(self).map.wf(),
        ensures
            final(self).same_but_tiles(old(self)),
            floor_grows(old(self).map.tiles@, final(self).map.tiles@),
            sorted_by_center_x(sorted@, old(self).rooms@),
            corridors_join(final(self).map.tiles@, sorted@),
            exists|bends: Seq<bool>|
                #[trigger] corridors_only(old(self).map.tiles@, final(self).map.tiles@, sorted@, bends),
    {
        let rooms = sort_by_center_x(&self.rooms);
        let ghost orig = self.map.tiles@;
        let ghost mut bends: Seq<bool> = seq![false];
        let mut i: usize = 1;
        while i < rooms.len()
            invariant
                self.same_but_tiles(old(self)),
                orig == old(self).map.tiles@,
                sorted_by_center_x(rooms@, old(self).rooms@),
                1 <= i,
                i <= rooms@.len() || rooms@.len() == 0,
                rooms@.len() == 0 ==> i == 1,
                bends.len() == i,
                forall|k: int|
                    0 <= k < NUM_TILES ==> #[trigger] self.map.tiles@[k] == if in_corridors(
                        rooms@,
                        bends,
                        i as int,
                        point_of(k),
                    ) {
                        TileType::Floor
                    } else {
                        orig[k]
                    },
            decreases rooms@.len() - i,
        {
            let prev = rooms[i - 1].center();
            let new = rooms[i].center();
            let ghost before = self.map.tiles@;
            let row_first = rng_range(rng, 0, 2) == 1;
            if row_first {
                self.apply_horizontal_tunnel(prev.x, new.x, prev.y);
                self.apply_vertical_tunnel(prev.y, new.y, new.x);
            } else {
                self.apply_vertical_tunnel(prev.y, new.y, prev.x);
                self.apply_horizontal_tunnel(prev.x, new.x, new.y);
            }
            proof {
                let nb = bends.push(row_first);
                assert forall|k: int|
                    0 <= k < NUM_TILES implies #[trigger] self.map.tiles@[k] == if in_corridors(
                    rooms@,
                    nb,
                    i + 1,
                    point_of(k),
                ) {
                    TileType::Floor
                } else {
                    orig[k]
                } by {
                    let p = point_of(k);
                    assert(self.map.tiles@[k] == if on_corridor(prev, new, row_first, p) {
                        TileType::Floor
                    } else {
                        before[k]
                    });
                    if in_corridors(rooms@, bends, i as int, p) {
                        let t = choose|t: int|
                            1 <= t < i && on_corridor(
                                center_of(rooms@[t - 1]),
                                center_of(rooms@[t]),
                                bends[t],
                                p,
                            );
                        assert(nb[t] == bends[t]);
                    }
                    if on_corridor(prev, new, row_first, p) {
                        assert(nb[i as int] == row_first);
                    }
                    if in_corridors(rooms@, nb, i + 1, p) && !on_corridor(prev, new, row_first, p) {
                        let t = choose|t: int|
                            1 <= t < i + 1 && on_corridor(
                                center_of(rooms@[t - 1]),
                                center_of(rooms@[t]),
                                nb[t],
                                p,
                            );
                        assert(t != i);
                        assert(nb[t] == bends[t]);
                    }
                }
                bends = nb;
            }
            i += 1;
        }
        proof {
            let n = rooms@.len() as int;
            let fb: Seq<bool> = if n == 0 { Seq::empty() } else { bends };
            assert forall|k: int|
                0 <= k < NUM_TILES implies #[trigger] self.map.tiles@[k] == if in_corridors(
                rooms@,
                fb,
                n,
                point_of(k),
            ) {
                TileType::Floor
            } else {
                orig[k]
            } by {
                if n == 0 {
                    assert(!in_corridors(rooms@, bends, i as int, point_of(k)));
                } else {
                    assert(i == n);
                }
            }
            assert(floor_grows(orig, self.map.tiles@));
            assert forall|t: int| 1 <= t < n implies corridor_carved(
                self.map.tiles@,
                center_of(rooms@[t - 1]),
                center_of(#[trigger] rooms@[t]),
            ) by {
                assert forall|k: int|
                    0 <= k < NUM_TILES && on_corridor(
                        center_of(rooms@[t - 1]),
                        center_of(rooms@[t]),
                        fb[t],
                        point_of(k),
                    ) implies #[trigger] self.map.tiles@[k] == TileType::Floor by {
                    assert(in_corridors(rooms@, fb, n, point_of(k)));
                }
                lemma_corridor_of_cells(self.map.tiles@, center_of(rooms@[t - 1]), center_of(rooms@[t]), fb[t]);
            }
            assert(corridors_only(orig, self.map.tiles@, rooms@, fb));
        }
        rooms
    }

    /// The goal: the reachable tile farthest from the player's start, or
    /// `None` when nothing but the start is reachable.
    pub fn find_most_distant(&self) -> (r: Option<Point>)
        requires
            self.map.wf(),
            point_in_grid(self.player_start),
        ensures
            is_distance_field(
                self.map.tiles@,
                start_seeds(self.player_start),
                SEARCH_RADIUS as nat,
                start_field(self.map.tiles@, self.player_start),
            ),
            r matches Some(p) ==> is_farthest(self.map.tiles@, self.player_start, p),
            r is None <==> only_start_reached(self.map.tiles@, self.player_start),
    {
        let mut seeds: Vec<usize> = Vec::new();
        seeds.push(map_idx(self.player_start.x, self.player_start.y));
        assert(seeds@ == start_seeds(self.player_start));
        let d = distance_field(&self.map, &seeds, SEARCH_RADIUS);
        let ghost gd = start_field(self.map.tiles@, self.player_start);
        let mut best: Option<usize> = None;
        let mut best_d: u32 = 0;
        let mut i: usize = 0;
        while i < NUM_TILES
            invariant
                d@ == gd,
                d@.len() == NUM_TILES,
                i <= NUM_TILES,
                best is None ==> forall|q: int| 0 <= q < i ==> #[trigger] gd[q] == UNREACHABLE || gd[q] == 0,
                best matches Some(b) ==> {
                    &&& b < i
                    &&& gd[b as int] == best_d
                    &&& best_d != UNREACHABLE
                    &&& best_d > 0
                    &&& forall|q: int| 0 <= q < i && #[trigger] gd[q] != UNREACHABLE ==> gd[q] <= best_d
                    &&& forall|q: int| 0 <= q < b && #[trigger] gd[q] != UNREACHABLE ==> gd[q] < best_d
                },
            decreases NUM_TILES - i,
        {
            let di = d[i];
            if di != UNREACHABLE && di > 0 && (best.is_none() || di > best_d) {
                best = Some(i);
                best_d = di;
            }
            i += 1;
        }
        let ghost tiles = self.map.tiles@;
        let ghost start = self.player_start;
        proof {
            lemma_idx_of(start.x as int, start.y as int);
            if best is None {
                assert forall|q: int|
                    0 <= q < NUM_TILES && q != idx_of_point(start) implies #[trigger] gd[q] == UNREACHABLE by {
                    lemma_start_field_zero(tiles, start, q);
                }
            } else {
                let b = best->Some_0 as int;
                lemma_start_field_zero(tiles, start, b);
                if b == idx_of_point(start) {
                    lemma_reached_floor(tiles, start_seeds(start), SEARCH_RADIUS as nat, b);
                    lemma_start_field_zero(tiles, start, idx_of_point(start));
                }
                assert(gd[b] != UNREACHABLE && b != idx_of_point(start));
            }
        }
        match best {
            Some(b) => {
                let p = index_to_point(b);
                Some(p)
            },
            None => None,
        }
    }

    /// Draws `NUM_MONSTERS` distinct spawn points, without replacement, from
    /// the tiles that may hold a monster; `None` when there are fewer such tiles.
    pub fn spawn_monsters(&self, start: &Point, rng: &mut RandomNumberGenerator) -> (r: Option<Vec<Point>>)
        requires
            self.map.wf(),
            point_in_grid(*start),
        ensures
            r is None <==> admissible_count(self.map.tiles@, *start) < NUM_MONSTERS,
            r matches Some(s) ==> s@.len() == NUM_MONSTERS && spawns_valid(self.map.tiles@, *start, s@),
    {
        let ghost tiles = self.map.tiles@;
        let mut spawnable_tiles: Vec<Point> = Vec::new();
        let mut i: usize = 0;
        while i < NUM_TILES
            invariant
                tiles == self.map.tiles@,
                self.map.wf(),
                point_in_grid(*start),
                i <= NUM_TILES,
                spawnable_tiles@.len() == admissible_upto(tiles, *start, i as int),
                spawnable_tiles@.len() <= i,
                forall|a: int|
                    0 <= a < spawnable_tiles@.len() ==> spawn_ok(tiles, *start, #[trigger] spawnable_tiles@[a])
                        && idx_of_point(spawnable_tiles@[a]) < i,
                forall|a: int, b: int|
                    0 <= a < b < spawnable_tiles@.len() ==> #[trigger] spawnable_tiles@[a]
                        != #[trigger] spawnable_tiles@[b],
            decreases NUM_TILES - i,
        {
            let p = index_to_point(i);
            let ghost before = spawnable_tiles@;
            if self.map.tiles[i] == TileType::Floor && distance_sq(p, *start) > SPAWN_MIN_DIST_SQ {
                spawnable_tiles.push(p);
            }
            proof {
                assert(spawn_ok(tiles, *start, p) <==> (tiles[i as int] == TileType::Floor && dist_sq(p, *start)
                    > SPAWN_MIN_DIST_SQ));
                assert(admissible_upto(tiles, *start, i + 1) == admissible_upto(tiles, *start, i as int)
                    + if spawn_ok(tiles, *start, p) { 1int } else { 0 });
                assert forall|a: int|
                    0 <= a < spawnable_tiles@.len() implies spawn_ok(tiles, *start, #[trigger] spawnable_tiles@[a])
                    && idx_of_point(spawnable_tiles@[a]) < i + 1 by {
                    if a < before.len() {
                        assert(spawnable_tiles@[a] == before[a]);
                    }
                }
            }
            i += 1;
        }
        if spawnable_tiles.len() < NUM_MONSTERS {
            return None;
        }
        let mut spawns: Vec<Point> = Vec::new();
        let mut k: usize = 0;
        while k < NUM_MONSTERS
            invariant
                tiles == self.map.tiles@,
                k <= NUM_MONSTERS,
                spawns@.len() == k,
                spawnable_tiles@.len() + k >= NUM_MONSTERS,
                spawnable_tiles@.len() <= NUM_TILES,
                forall|a: int|
                    0 <= a < spawnable_tiles@.len() ==> spawn_ok(tiles, *start, #[trigger] spawnable_tiles@[a]),
                forall|a: int, b: int|
                    0 <= a < b < spawnable_tiles@.len() ==> #[trigger] spawnable_tiles@[a]
                        != #[trigger] spawnable_tiles@[b],
                spawns_valid(tiles, *start, spawns@),
                forall|a: int, b: int|
                    0 <= a < spawns@.len() && 0 <= b < spawnable_tiles@.len() ==> #[trigger] spawns@[a]
                        != #[trigger] spawnable_tiles@[b],
            decreases NUM_MONSTERS - k,
        {
            match rng_slice_index(rng, &spawnable_tiles) {
                Some(t) => {
                    let ghost cand = spawnable_tiles@;
                    let ghost sp = spawns@;
                    let chosen = spawnable_tiles[t];
                    spawns.push(chosen);
                    spawnable_tiles.remove(t);
                    proof {
                        assert forall|b: int| 0 <= b < spawnable_tiles@.len() implies #[trigger] spawnable_tiles@[b]
                            == if b < t {
                            cand[b]
                        } else {
                            cand[b + 1]
                        } by {}
                        assert forall|a: int, b: int|
                            0 <= a < b < spawnable_tiles@.len() implies #[trigger] spawnable_tiles@[a]
                            != #[trigger] spawnable_tiles@[b] by {
                            let a0 = if a < t { a } else { a + 1 };
                            let b0 = if b < t { b } else { b + 1 };
                            assert(cand[a0] != cand[b0]);
                        }
                        assert forall|a: int, b: int|
                            0 <= a < spawns@.len() && 0 <= b < spawnable_tiles@.len() implies #[trigger] spawns@[a]
                            != #[trigger] spawnable_tiles@[b] by {
                            let b0 = if b < t { b } else { b + 1 };
                            if a < k {
                                assert(sp[a] != cand[b0]);
                            } else {
                                assert(cand[t as int] != cand[b0]);
                            }
                        }
                        assert forall|a: int, b: int|
                            0 <= a < b < spawns@.len() implies #[trigger] spawns@[a] != #[trigger] spawns@[b] by {
                            if b == k {
                                assert(sp[a] != cand[t as int]);
                            } else {
                                assert(sp[a] != sp[b]);
                            }
                        }
                        assert forall|a: int| 0 <= a < spawns@.len() implies spawn_ok(
                            tiles,
                            *start,
                            #[trigger] spawns@[a],
                        ) by {
                            if a < k {
                                assert(spawns@[a] == sp[a]);
                            }
                        }
                    }
                },
                None => {
                    assert(false);
                },
            }
            k += 1;
        }
        Some(spawns)
    }
}

/// Places the goal and the monsters on a grid whose start is set, or says
/// why it cannot.
pub(crate) fn finish_level(mb: MapBuilder, rng: &mut RandomNumberGenerator) -> (r: Result<
    MapBuilder,
    GenerationError,
>)
    requires
        mb.map.wf(),
        floor_at(mb.map.tiles@, mb.player_start),
    ensures
        r matches Ok(out) ==> {
            &&& out.is_valid_level()
            &&& out.map.tiles@ == mb.map.tiles@
            &&& out.rooms@ == mb.rooms@
            &&& out.player_start == mb.player_start
            &&& is_farthest(mb.map.tiles@, mb.player_start, out.amulet_start)
            &&& out.monster_spawns@.len() == NUM_MONSTERS
        },
        r is Err <==> (only_start_reached(mb.map.tiles@, mb.player_start) || admissible_count(
            mb.map.tiles@,
            mb.player_start,
        ) < NUM_MONSTERS),
        r matches Err(e) ==> e == GenerationError::Infeasible,
{
    let mut mb = mb;
    let goal = match mb.find_most_distant() {
        Some(g) => g,
        None => {
            return Err(GenerationError::Infeasible);
        },
    };
    let start = mb.player_start;
    let spawns = match mb.spawn_monsters(&start, rng) {
        Some(s) => s,
        None => {
            return Err(GenerationError::Infeasible);
        },
    };
    proof {
        let tiles = mb.map.tiles@;
        let d = start_field(tiles, start);
        let g = idx_of_point(goal);
        assert(d[g] != UNREACHABLE);
        assert(reached(tiles, start_seeds(start), SEARCH_RADIUS as nat, g));
        lemma_reached_floor(tiles, start_seeds(start), SEARCH_RADIUS as nat, g);
        lemma_start_field_zero(tiles, start, idx_of_point(start));
        lemma_idx_of(start.x as int, start.y as int);
        assert(g != idx_of_point(start));
        assert(goal != start);
    }
    mb.amulet_start = goal;
    mb.monster_spawns = spawns;
    Ok(mb)
}

} // verus!
