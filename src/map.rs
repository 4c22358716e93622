use vstd::prelude::*;
use vstd::arithmetic::div_mod::{lemma_fundamental_div_mod, lemma_div_multiples_vanish_fancy, lemma_mod_multiples_vanish};
use crate::geometry::Point;

verus! {

pub const SCREEN_WIDTH: i32 = 80;
pub const SCREEN_HEIGHT: i32 = 50;
pub const NUM_TILES: usize = 4000;

/// The state of one tile: walls block movement, floors do not.
#[derive(Clone, Copy, Debug, PartialEq, Eq, Structural)]
pub enum TileType {
    Wall,
    Floor,
}

/// A `SCREEN_WIDTH` by `SCREEN_HEIGHT` grid of tiles, stored row by row.
pub struct TileMap {
    pub tiles: Vec<TileType>,
}

/// Whether `(x, y)` lies on the grid.
pub open spec fn in_grid(x: int, y: int) -> bool {
    0 <= x < SCREEN_WIDTH && 0 <= y < SCREEN_HEIGHT
}

/// Whether `(x, y)` lies on the outermost ring of the grid.
pub open spec fn on_border(x: int, y: int) -> bool {
    x == 0 || y == 0 || x == SCREEN_WIDTH - 1 || y == SCREEN_HEIGHT - 1
}

/// The position of `(x, y)` in the row-major tile sequence.
pub open spec fn idx_of(x: int, y: int) -> int {
    y * SCREEN_WIDTH + x
}

/// The column of tile index `i`.
pub open spec fn col_of(i: int) -> int {
    i % (SCREEN_WIDTH as int)
}

/// The row of tile index `i`.
pub open spec fn row_of(i: int) -> int {
    i / (SCREEN_WIDTH as int)
}

pub open spec fn point_of(i: int) -> Point {
    Point { x: col_of(i) as i32, y: row_of(i) as i32 }
}

pub open spec fn valid_idx(i: int) -> bool {
    0 <= i < NUM_TILES
}

pub open spec fn point_in_grid(p: Point) -> bool {
    in_grid(p.x as int, p.y as int)
}

pub open spec fn is_floor(tiles: Seq<TileType>, i: int) -> bool {
    0 <= i < tiles.len() && tiles[i] == TileType::Floor
}

pub open spec fn floor_at(tiles: Seq<TileType>, p: Point) -> bool {
    point_in_grid(p) && is_floor(tiles, idx_of(p.x as int, p.y as int))
}

/// The tiles that are Floor in `old` are Floor in `new` too.
pub open spec fn floor_grows(old: Seq<TileType>, new: Seq<TileType>) -> bool {
    old.len() == new.len() && forall|i: int| #![trigger is_floor(old, i)] #![trigger is_floor(new, i)] is_floor(old, i) ==> is_floor(new, i)
}

/// Number of Floor tiles among the first `n` tiles.
pub open spec fn floor_count_upto(tiles: Seq<TileType>, n: int) -> int
    decreases n,
{
    if n <= 0 {
        0
    } else {
        floor_count_upto(tiles, n - 1) + if tiles[n - 1] == TileType::Floor { 1int } else { 0 }
    }
}

pub open spec fn floor_count(tiles: Seq<TileType>) -> int {
    floor_count_upto(tiles, tiles.len() as int)
}

/// Setting one tile to Floor adds at most one Floor tile.
pub proof fn lemma_floor_count_set(tiles: Seq<TileType>, i: int, n: int)
    requires
        0 <= i < tiles.len(),
        0 <= n <= tiles.len(),
    ensures
        floor_count_upto(tiles.update(i, TileType::Floor), n) <= floor_count_upto(tiles, n) + 1,
        n <= i ==> floor_count_upto(tiles.update(i, TileType::Floor), n) == floor_count_upto(tiles, n),
    decreases n,
{
    if n > 0 {
        lemma_floor_count_set(tiles, i, n - 1);
    }
}

/// Fewer Floor tiles tile by tile means no more Floor tiles in all.
pub proof fn lemma_floor_count_shrinks(a: Seq<TileType>, b: Seq<TileType>, n: int)
    requires
        a.len() == b.len(),
        0 <= n <= a.len(),
        forall|i: int| #[trigger] is_floor(b, i) ==> is_floor(a, i),
    ensures
        floor_count_upto(b, n) <= floor_count_upto(a, n),
    decreases n,
{
    if n > 0 {
        lemma_floor_count_shrinks(a, b, n - 1);
        assert(is_floor(b, n - 1) ==> is_floor(a, n - 1));
    }
}

/// A grid without Floor tiles counts none.
pub proof fn lemma_floor_count_zero(tiles: Seq<TileType>, n: int)
    requires
        0 <= n <= tiles.len(),
        forall|i: int| 0 <= i < tiles.len() ==> #[trigger] tiles[i] == TileType::Wall,
    ensures
        floor_count_upto(tiles, n) == 0,
    decreases n,
{
    if n > 0 {
        lemma_floor_count_zero(tiles, n - 1);
    }
}

/// A tile index maps back to the coordinates it was computed from.
pub proof fn lemma_idx_of(x: int, y: int)
    requires
        in_grid(x, y),
    ensures
        valid_idx(idx_of(x, y)),
        col_of(idx_of(x, y)) == x,
        row_of(idx_of(x, y)) == y,
        point_of(idx_of(x, y)) == (Point { x: x as i32, y: y as i32 }),
{
    assert(0 <= y * 80 <= 49 * 80) by (nonlinear_arith)
        requires 0 <= y < 50;
    lemma_div_multiples_vanish_fancy(y, x, 80);
    lemma_mod_multiples_vanish(y, x, 80);
    assert(80 * y + x == idx_of(x, y));
    assert(x % 80 == x) by {
        lemma_fundamental_div_mod(x, 80);
    }
}

/// Every valid tile index has coordinates on the grid.
pub proof fn lemma_coords_of(i: int)
    requires
        valid_idx(i),
    ensures
        in_grid(col_of(i), row_of(i)),
        idx_of(col_of(i), row_of(i)) == i,
{
    lemma_fundamental_div_mod(i, 80);
    assert(0 <= i % 80 < 80);
    assert(0 <= i / 80 < 50);
}

/// The index of the tile at `(x, y)`; the caller checks the bounds first.
pub fn map_idx(x: i32, y: i32) -> (r: usize)
    requires
        in_grid(x as int, y as int),
    ensures
        r == idx_of(x as int, y as int),
        r < NUM_TILES,
{
    proof {
        lemma_idx_of(x as int, y as int);
    }
    ((y * SCREEN_WIDTH) + x) as usize
}

/// The point at tile index `idx`.
pub fn index_to_point(idx: usize) -> (r: Point)
    requires
        valid_idx(idx as int),
    ensures
        r == point_of(idx as int),
        point_in_grid(r),
        idx_of(r.x as int, r.y as int) == idx,
{
    proof {
        lemma_coords_of(idx as int);
    }
    Point { x: (idx % 80) as i32, y: (idx / 80) as i32 }
}

impl TileMap {
    pub open spec fn wf(&self) -> bool {
        self.tiles@.len() == NUM_TILES
    }

    /// An all-Floor grid.
    pub fn new() -> (r: TileMap)
        ensures
            r.wf(),
            forall|i: int| 0 <= i < NUM_TILES ==> r.tiles@[i] == TileType::Floor,
    {
        TileMap { tiles: vec![TileType::Floor; NUM_TILES] }
    }

    pub fn in_bounds(&self, point: Point) -> (r: bool)
        ensures
            r == point_in_grid(point),
    {
        point.x >= 0 && point.x < SCREEN_WIDTH && point.y >= 0 && point.y < SCREEN_HEIGHT
    }

    /// Whether a mobile entity may stand on `point`: on the grid and Floor.
    pub fn can_enter_tile(&self, point: Point) -> (r: bool)
        requires
            self.wf(),
        ensures
            r == floor_at(self.tiles@, point),
    {
        self.in_bounds(point) && self.tiles[map_idx(point.x, point.y)] == TileType::Floor
    }

    /// The index of `point`, or `None` when it lies off the grid.
    pub fn try_idx(&self, point: Point) -> (r: Option<usize>)
        ensures
            r matches Some(i) ==> point_in_grid(point) && i == idx_of(point.x as int, point.y as int)
                && i < NUM_TILES,
            r is None <==> !point_in_grid(point),
    {
        if !self.in_bounds(point) {
            None
        } else {
            Some(map_idx(point.x, point.y))
        }
    }

    /// Overwrites every tile with `tile`.
    pub fn fill(&mut self, tile: TileType)
        ensures
            final(self).tiles@.len() == old(self).tiles@.len(),
            forall|i: int| 0 <= i < final(self).tiles@.len() ==> final(self).tiles@[i] == tile,
    {
        let n = self.tiles.len();
        let mut i: usize = 0;
        while i < n
            invariant
                self.tiles@.len() == n,
                i <= n,
                forall|j: int| 0 <= j < i ==> self.tiles@[j] == tile,
            decreases n - i,
        {
            self.tiles.set(i, tile);
            i += 1;
        }
    }

    /// Counts the Floor tiles.
    pub fn floor_tiles(&self) -> (r: usize)
        ensures
            r == floor_count(self.tiles@),
    {
        let mut count: usize = 0;
        let mut i: usize = 0;
        while i < self.tiles.len()
            invariant
                i <= self.tiles@.len(),
                count == floor_count_upto(self.tiles@, i as int),
                count <= i,
            decreases self.tiles@.len() - i,
        {
            if self.tiles[i] == TileType::Floor {
                count += 1;
            }
            i += 1;
        }
        count
    }
}

} // verus!
