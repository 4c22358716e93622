use vstd::prelude::*;
use crate::map::{
    TileMap, TileType, NUM_TILES, SCREEN_WIDTH, SCREEN_HEIGHT, in_grid, idx_of, col_of, row_of,
    valid_idx, is_floor, lemma_idx_of, lemma_coords_of,
};

verus! {

/// The distance given to a tile that no seed reaches.
pub const UNREACHABLE: u32 = 4294967295;

/// Tiles `i` and `j` are distinct grid tiles that touch orthogonally or diagonally.
pub open spec fn adjacent(i: int, j: int) -> bool {
    valid_idx(i) && valid_idx(j) && i != j && -1 <= col_of(i) - col_of(j) <= 1 && -1 <= row_of(i)
        - row_of(j) <= 1
}

pub open spec fn is_seed(seeds: Seq<usize>, i: int) -> bool {
    exists|s: int| 0 <= s < seeds.len() && seeds[s] as int == i
}

/// The tiles reached from some seed in at most `k` unit steps, each step
/// between adjacent tiles, with every tile on the way Floor.
pub open spec fn reached_set(tiles: Seq<TileType>, seeds: Seq<usize>, k: nat) -> Set<int>
    decreases k,
{
    if k == 0 {
        Set::new(|i: int| is_floor(tiles, i) && is_seed(seeds, i))
    } else {
        let prev = reached_set(tiles, seeds, (k - 1) as nat);
        Set::new(
            |i: int|
                is_floor(tiles, i) && (prev.contains(i) || exists|j: int|
                    adjacent(j, i) && #[trigger] prev.contains(j)),
        )
    }
}

pub open spec fn reached(tiles: Seq<TileType>, seeds: Seq<usize>, k: nat, i: int) -> bool {
    reached_set(tiles, seeds, k).contains(i)
}

/// `d` holds, for each tile, the least number of steps within `radius` that
/// reaches it, or `UNREACHABLE` when no such number exists.
pub open spec fn is_distance_field(tiles: Seq<TileType>, seeds: Seq<usize>, radius: nat, d: Seq<u32>) -> bool {
    &&& d.len() == tiles.len()
    &&& forall|i: int| 0 <= i < d.len() ==> (#[trigger] d[i] == UNREACHABLE <==> !reached(tiles, seeds, radius, i))
    &&& forall|i: int| 0 <= i < d.len() && #[trigger] d[i] != UNREACHABLE ==> {
        &&& d[i] <= radius
        &&& reached(tiles, seeds, d[i] as nat, i)
        &&& d[i] > 0 ==> !reached(tiles, seeds, (d[i] - 1) as nat, i)
    }
}

/// The distance field of `seeds` over `tiles` within `radius`.
pub open spec fn field_of(tiles: Seq<TileType>, seeds: Seq<usize>, radius: nat) -> Seq<u32> {
    choose|d: Seq<u32>| is_distance_field(tiles, seeds, radius, d)
}

/// What is reached within `k1` steps is reached within any `k2 >= k1` steps.
pub proof fn lemma_reached_mono(tiles: Seq<TileType>, seeds: Seq<usize>, k1: nat, k2: nat, i: int)
    requires
        k1 <= k2,
        reached(tiles, seeds, k1, i),
    ensures
        reached(tiles, seeds, k2, i),
    decreases k2 - k1,
{
    if k1 < k2 {
        lemma_reached_mono(tiles, seeds, k1, (k2 - 1) as nat, i);
        lemma_reached_unfold(tiles, seeds, k2, i);
    }
}

/// One step of the definition of `reached`, stated for a positive bound.
pub proof fn lemma_reached_unfold(tiles: Seq<TileType>, seeds: Seq<usize>, k: nat, i: int)
    requires
        k > 0,
    ensures
        reached(tiles, seeds, k, i) == (is_floor(tiles, i) && (reached(tiles, seeds, (k - 1) as nat, i)
            || exists|j: int| adjacent(j, i) && #[trigger] reached(tiles, seeds, (k - 1) as nat, j))),
{
    let prev = reached_set(tiles, seeds, (k - 1) as nat);
    assert(reached_set(tiles, seeds, k) == Set::new(
        |i: int|
            is_floor(tiles, i) && (prev.contains(i) || exists|j: int|
                adjacent(j, i) && #[trigger] prev.contains(j)),
    ));
    if reached(tiles, seeds, k, i) && !prev.contains(i) {
        let j = choose|j: int| adjacent(j, i) && #[trigger] prev.contains(j);
        assert(reached(tiles, seeds, (k - 1) as nat, j));
    }
    if is_floor(tiles, i) && exists|j: int| adjacent(j, i) && #[trigger] reached(tiles, seeds, (k - 1) as nat, j) {
        let j = choose|j: int| adjacent(j, i) && #[trigger] reached(tiles, seeds, (k - 1) as nat, j);
        assert(prev.contains(j));
    }
}

/// Only Floor tiles are reached.
pub proof fn lemma_reached_floor(tiles: Seq<TileType>, seeds: Seq<usize>, k: nat, i: int)
    requires
        reached(tiles, seeds, k, i),
    ensures
        is_floor(tiles, i),
{
    if k > 0 {
        lemma_reached_unfold(tiles, seeds, k, i);
    }
}

/// A Floor seed is reached within any number of steps.
pub proof fn lemma_seed_reached(tiles: Seq<TileType>, seeds: Seq<usize>, k: nat, s: int)
    requires
        0 <= s < seeds.len(),
        is_floor(tiles, seeds[s] as int),
    ensures
        reached(tiles, seeds, k, seeds[s] as int),
{
    assert(is_seed(seeds, seeds[s] as int));
    assert(reached(tiles, seeds, 0, seeds[s] as int));
    lemma_reached_mono(tiles, seeds, 0, k, seeds[s] as int);
}

/// Reaching survives any change of tiles that keeps Floor every tile reached
/// within `radius`.
pub proof fn lemma_reached_kept(
    old_tiles: Seq<TileType>,
    new_tiles: Seq<TileType>,
    seeds: Seq<usize>,
    radius: nat,
    k: nat,
    i: int,
)
    requires
        k <= radius,
        reached(old_tiles, seeds, k, i),
        forall|j: int| reached(old_tiles, seeds, radius, j) ==> #[trigger] is_floor(new_tiles, j),
    ensures
        reached(new_tiles, seeds, k, i),
    decreases k,
{
    lemma_reached_mono(old_tiles, seeds, k, radius, i);
    assert(is_floor(new_tiles, i));
    if k == 0 {
        assert(is_seed(seeds, i));
    } else {
        lemma_reached_unfold(old_tiles, seeds, k, i);
        lemma_reached_unfold(new_tiles, seeds, k, i);
        if reached(old_tiles, seeds, (k - 1) as nat, i) {
            lemma_reached_kept(old_tiles, new_tiles, seeds, radius, (k - 1) as nat, i);
        } else {
            let j = choose|j: int| adjacent(j, i) && #[trigger] reached(old_tiles, seeds, (k - 1) as nat, j);
            lemma_reached_kept(old_tiles, new_tiles, seeds, radius, (k - 1) as nat, j);
            lemma_reached_step(new_tiles, seeds, (k - 1) as nat, j, i);
        }
    }
}

/// One more step from a reached tile reaches each adjacent Floor tile.
pub proof fn lemma_reached_step(tiles: Seq<TileType>, seeds: Seq<usize>, k: nat, j: int, i: int)
    requires
        reached(tiles, seeds, k, j),
        adjacent(j, i),
        is_floor(tiles, i),
    ensures
        reached(tiles, seeds, k + 1, i),
{
    lemma_reached_unfold(tiles, seeds, k + 1, i);
}

/// Computing a distance field is deterministic: two fields for the same
/// tiles, seeds and radius agree on every tile.
pub proof fn lemma_distance_field_unique(
    tiles: Seq<TileType>,
    seeds: Seq<usize>,
    radius: nat,
    d1: Seq<u32>,
    d2: Seq<u32>,
)
    requires
        is_distance_field(tiles, seeds, radius, d1),
        is_distance_field(tiles, seeds, radius, d2),
    ensures
        d1 == d2,
{
    assert forall|i: int| 0 <= i < d1.len() implies d1[i] == d2[i] by {
        if d1[i] != UNREACHABLE && d2[i] != UNREACHABLE {
            if d1[i] < d2[i] {
                lemma_reached_mono(tiles, seeds, d1[i] as nat, (d2[i] - 1) as nat, i);
            }
            if d2[i] < d1[i] {
                lemma_reached_mono(tiles, seeds, d2[i] as nat, (d1[i] - 1) as nat, i);
            }
        }
    }
    assert(d1 =~= d2);
}

fn push_neighbour(r: &mut Vec<usize>, c: usize, x: i32, y: i32)
    requires
        valid_idx(c as int),
        -1 <= x - col_of(c as int) <= 1,
        -1 <= y - row_of(c as int) <= 1,
        !(x == col_of(c as int) && y == row_of(c as int)),
        forall|t: int| 0 <= t < old(r)@.len() ==> adjacent(c as int, #[trigger] old(r)@[t] as int),
    ensures
        final(r)@ == if in_grid(x as int, y as int) {
            old(r)@.push(idx_of(x as int, y as int) as usize)
        } else {
            old(r)@
        },
        forall|t: int| 0 <= t < final(r)@.len() ==> adjacent(c as int, #[trigger] final(r)@[t] as int),
        forall|j: usize| old(r)@.contains(j) ==> final(r)@.contains(j),
        in_grid(x as int, y as int) ==> final(r)@.contains(idx_of(x as int, y as int) as usize),
{
    broadcast use vstd::seq_lib::lemma_seq_contains_after_push;

    if 0 <= x && x < SCREEN_WIDTH && 0 <= y && y < SCREEN_HEIGHT {
        proof {
            lemma_idx_of(x as int, y as int);
            lemma_coords_of(c as int);
        }
        r.push((y * SCREEN_WIDTH + x) as usize);
        proof {
            assert forall|t: int| 0 <= t < r@.len() implies adjacent(c as int, #[trigger] r@[t] as int) by {
                if t < r@.len() - 1 {
                    assert(r@[t] == old(r)@[t]);
                }
            }
        }
    }
}

/// The tiles adjacent to tile `i`.
#[verifier::rlimit(40)]
fn neighbours(i: usize) -> (r: Vec<usize>)
    requires
        valid_idx(i as int),
    ensures
        forall|t: int| 0 <= t < r@.len() ==> adjacent(i as int, #[trigger] r@[t] as int),
        forall|j: int| adjacent(i as int, j) ==> r@.contains(j as usize),
{
    proof {
        lemma_coords_of(i as int);
    }
    let x = (i % 80) as i32;
    let y = (i / 80) as i32;
    let mut r: Vec<usize> = Vec::new();
    push_neighbour(&mut r, i, x - 1, y - 1);
    push_neighbour(&mut r, i, x, y - 1);
    push_neighbour(&mut r, i, x + 1, y - 1);
    push_neighbour(&mut r, i, x - 1, y);
    push_neighbour(&mut r, i, x + 1, y);
    push_neighbour(&mut r, i, x - 1, y + 1);
    push_neighbour(&mut r, i, x, y + 1);
    push_neighbour(&mut r, i, x + 1, y + 1);
    proof {
        assert forall|j: int| adjacent(i as int, j) implies r@.contains(j as usize) by {
            lemma_coords_of(j);
            let dx = col_of(j) - x;
            let dy = row_of(j) - y;
            assert(j == idx_of(x + dx, y + dy));
            assert(in_grid(x + dx, y + dy));
        }
    }
    r
}

/// Tile `i` is adjacent to one of the first `f` tiles of `frontier`.
pub open spec fn touches(frontier: Seq<usize>, f: int, i: int) -> bool {
    exists|t: int| 0 <= t < f && adjacent(#[trigger] frontier[t] as int, i)
}

/// The distance of every tile from the nearest seed, by a breadth-first
/// flood fill over Floor tiles with unit cost per orthogonal or diagonal
/// step. Tiles beyond `radius` steps, Wall tiles and tiles cut off from every
/// seed are `UNREACHABLE`.
pub fn distance_field(map: &TileMap, seeds: &Vec<usize>, radius: u32) -> (r: Vec<u32>)
    requires
        map.wf(),
        forall|s: int| 0 <= s < seeds@.len() ==> #[trigger] seeds@[s] < NUM_TILES,
        radius < UNREACHABLE,
    ensures
        is_distance_field(map.tiles@, seeds@, radius as nat, r@),
        r@ == field_of(map.tiles@, seeds@, radius as nat),
{
    broadcast use vstd::seq_lib::lemma_seq_contains_after_push;

    let ghost tiles = map.tiles@;
    let ghost sd = seeds@;
    let mut dist: Vec<u32> = vec![UNREACHABLE; NUM_TILES];
    let mut frontier: Vec<usize> = Vec::new();
    let mut s: usize = 0;
    while s < seeds.len()
        invariant
            tiles == map.tiles@,
            sd == seeds@,
            map.wf(),
            forall|s: int| 0 <= s < seeds@.len() ==> #[trigger] seeds@[s] < NUM_TILES,
            s <= seeds@.len(),
            dist@.len() == NUM_TILES,
            forall|i: int| 0 <= i < NUM_TILES ==> (#[trigger] dist@[i] == 0 || dist@[i] == UNREACHABLE),
            forall|i: int| 0 <= i < NUM_TILES ==> (#[trigger] dist@[i] == 0 <==> (is_floor(tiles, i)
                && exists|t: int| 0 <= t < s && seeds@[t] as int == i)),
            forall|t: int| 0 <= t < frontier@.len() ==> #[trigger] frontier@[t] < NUM_TILES
                && dist@[frontier@[t] as int] == 0,
            forall|i: int| 0 <= i < NUM_TILES && #[trigger] dist@[i] == 0 ==> frontier@.contains(i as usize),
        decreases seeds@.len() - s,
    {
        let i = seeds[s];
        let ghost fr0 = frontier@;
        let ghost d0 = dist@;
        if map.tiles[i] == TileType::Floor && dist[i] == UNREACHABLE {
            dist.set(i, 0);
            frontier.push(i);
            assert(frontier@[frontier@.len() - 1] == i);
        }
        proof {
            assert forall|j: int| 0 <= j < NUM_TILES && #[trigger] dist@[j] == 0 implies frontier@.contains(
                j as usize,
            ) by {
                if j != i {
                    assert(d0[j] == 0);
                    assert(fr0.contains(j as usize));
                    let t = choose|t: int| 0 <= t < fr0.len() && fr0[t] == j as usize;
                    assert(frontier@[t] == j as usize);
                }
            }
            assert forall|j: int| 0 <= j < NUM_TILES implies (#[trigger] dist@[j] == 0 <==> (
            is_floor(tiles, j) && exists|t: int| 0 <= t < s + 1 && seeds@[t] as int == j)) by {
                if j == i {
                    if is_floor(tiles, j) {
                        assert(seeds@[s as int] as int == j);
                    }
                }
            }
        }
        s += 1;
    }
    proof {
        assert forall|i: int| 0 <= i < NUM_TILES implies (dist@[i] != UNREACHABLE <==> reached(
            tiles,
            sd,
            0,
            i,
        )) by {}
    }
    let mut k: u32 = 0;
    while k < radius && frontier.len() > 0
        invariant
            tiles == map.tiles@,
            sd == seeds@,
            map.wf(),
            k <= radius,
            radius < UNREACHABLE,
            dist@.len() == NUM_TILES,
            forall|i: int| 0 <= i < NUM_TILES ==> (#[trigger] dist@[i] != UNREACHABLE <==> reached(
                tiles,
                sd,
                k as nat,
                i,
            )),
            forall|i: int| 0 <= i < NUM_TILES && #[trigger] dist@[i] != UNREACHABLE ==> {
                &&& dist@[i] <= k
                &&& reached(tiles, sd, dist@[i] as nat, i)
                &&& dist@[i] > 0 ==> !reached(tiles, sd, (dist@[i] - 1) as nat, i)
            },
            forall|t: int| 0 <= t < frontier@.len() ==> #[trigger] frontier@[t] < NUM_TILES
                && dist@[frontier@[t] as int] == k,
            forall|i: int| 0 <= i < NUM_TILES && #[trigger] dist@[i] == k ==> frontier@.contains(i as usize),
        decreases radius - k,
    {
        let ghost before = dist@;
        let mut next: Vec<usize> = Vec::new();
        let mut f: usize = 0;
        while f < frontier.len()
            invariant
                tiles == map.tiles@,
                sd == seeds@,
                map.wf(),
                k < radius,
                radius < UNREACHABLE,
                f <= frontier@.len(),
                dist@.len() == NUM_TILES,
                forall|t: int| 0 <= t < frontier@.len() ==> #[trigger] frontier@[t] < NUM_TILES
                    && before[frontier@[t] as int] == k,
                forall|i: int| 0 <= i < NUM_TILES && #[trigger] before[i] == k ==> frontier@.contains(i as usize),
                forall|i: int| 0 <= i < NUM_TILES && #[trigger] before[i] != UNREACHABLE ==> dist@[i]
                    == before[i],
                forall|i: int| 0 <= i < NUM_TILES && #[trigger] before[i] == UNREACHABLE ==> (
                dist@[i] == UNREACHABLE <==> !(is_floor(tiles, i) && touches(frontier@, f as int, i))),
                forall|i: int| 0 <= i < NUM_TILES && #[trigger] dist@[i] != UNREACHABLE ==> before[i]
                    != UNREACHABLE || dist@[i] == k + 1,
                forall|t: int| 0 <= t < next@.len() ==> #[trigger] next@[t] < NUM_TILES && dist@[next@[t] as int]
                    == k + 1,
                forall|i: int| 0 <= i < NUM_TILES && #[trigger] dist@[i] == k + 1 ==> next@.contains(i as usize),
            decreases frontier@.len() - f,
        {
            let u = frontier[f];
            let nbrs = neighbours(u);
            let mut n: usize = 0;
            while n < nbrs.len()
                invariant
                    tiles == map.tiles@,
                    map.wf(),
                    k < radius,
                    radius < UNREACHABLE,
                    f < frontier@.len(),
                    u == frontier@[f as int],
                    n <= nbrs@.len(),
                    dist@.len() == NUM_TILES,
                    forall|t: int| 0 <= t < nbrs@.len() ==> adjacent(u as int, #[trigger] nbrs@[t] as int),
                    forall|j: int| adjacent(u as int, j) ==> nbrs@.contains(j as usize),
                    forall|i: int| 0 <= i < NUM_TILES && #[trigger] before[i] != UNREACHABLE ==> dist@[i]
                        == before[i],
                    forall|i: int| 0 <= i < NUM_TILES && #[trigger] before[i] == UNREACHABLE ==> (
                    dist@[i] == UNREACHABLE <==> !(is_floor(tiles, i) && (touches(frontier@, f as int, i)
                        || nbrs@.subrange(0, n as int).contains(i as usize)))),
                    forall|i: int| 0 <= i < NUM_TILES && #[trigger] dist@[i] != UNREACHABLE ==> before[i]
                        != UNREACHABLE || dist@[i] == k + 1,
                    forall|t: int| 0 <= t < next@.len() ==> #[trigger] next@[t] < NUM_TILES
                        && dist@[next@[t] as int] == k + 1,
                    forall|i: int| 0 <= i < NUM_TILES && #[trigger] dist@[i] == k + 1 ==> next@.contains(i as usize),
                decreases nbrs@.len() - n,
            {
                let v = nbrs[n];
                assert(adjacent(u as int, nbrs@[n as int] as int));
                let ghost nx0 = next@;
                let ghost d0 = dist@;
                if map.tiles[v] == TileType::Floor && dist[v] == UNREACHABLE {
                    dist.set(v, k + 1);
                    next.push(v);
                    assert(next@[next@.len() - 1] == v);
                }
                proof {
                    assert forall|j: int| 0 <= j < NUM_TILES && #[trigger] dist@[j] == k + 1 implies next@.contains(
                        j as usize,
                    ) by {
                        if j != v {
                            assert(d0[j] == k + 1);
                            assert(nx0.contains(j as usize));
                            let t = choose|t: int| 0 <= t < nx0.len() && nx0[t] == j as usize;
                            assert(next@[t] == j as usize);
                        }
                    }
                    assert forall|i: int| 0 <= i < NUM_TILES && #[trigger] before[i] == UNREACHABLE
                        implies (dist@[i] == UNREACHABLE <==> !(is_floor(tiles, i) && (touches(
                        frontier@,
                        f as int,
                        i,
                    ) || nbrs@.subrange(0, n + 1).contains(i as usize)))) by {
                        assert(nbrs@.subrange(0, n + 1) == nbrs@.subrange(0, n as int).push(v));
                        if i == v && is_floor(tiles, i) {
                            assert(nbrs@.subrange(0, n + 1)[n as int] == v);
                        }
                    }
                }
                n += 1;
            }
            proof {
                assert(nbrs@.subrange(0, nbrs@.len() as int) == nbrs@);
                assert forall|i: int| 0 <= i < NUM_TILES && #[trigger] before[i] == UNREACHABLE implies (
                dist@[i] == UNREACHABLE <==> !(is_floor(tiles, i) && touches(frontier@, f + 1, i))) by {
                    if nbrs@.contains(i as usize) {
                        let t = choose|t: int| 0 <= t < nbrs@.len() && nbrs@[t] == i as usize;
                        assert(adjacent(u as int, nbrs@[t] as int));
                    }
                    if adjacent(u as int, i) {
                        assert(frontier@[f as int] == u);
                    }
                    if touches(frontier@, f + 1, i) && !touches(frontier@, f as int, i) {
                        let t = choose|t: int| 0 <= t < f + 1 && adjacent(#[trigger] frontier@[t] as int, i);
                        assert(t == f);
                    }
                }
            }
            f += 1;
        }
        proof {
            let kn = k as nat;
            assert forall|i: int| 0 <= i < NUM_TILES implies (#[trigger] dist@[i] != UNREACHABLE
                <==> reached(tiles, sd, kn + 1, i)) by {
                if before[i] != UNREACHABLE {
                    lemma_reached_mono(tiles, sd, kn, kn + 1, i);
                } else {
                    if is_floor(tiles, i) && touches(frontier@, frontier@.len() as int, i) {
                        let t = choose|t: int| 0 <= t < frontier@.len() && adjacent(
                            #[trigger] frontier@[t] as int,
                            i,
                        );
                        lemma_reached_step(tiles, sd, kn, frontier@[t] as int, i);
                    }
                    if reached(tiles, sd, kn + 1, i) {
                        lemma_reached_unfold(tiles, sd, kn + 1, i);
                        assert(!reached(tiles, sd, kn, i));
                        let j = choose|j: int| adjacent(j, i) && #[trigger] reached(tiles, sd, kn, j);
                        if before[j] < k {
                            lemma_reached_step(tiles, sd, before[j] as nat, j, i);
                            lemma_reached_mono(tiles, sd, before[j] as nat + 1, kn, i);
                        }
                        assert(before[j] == k);
                        assert(frontier@.contains(j as usize));
                        let t = choose|t: int| 0 <= t < frontier@.len() && frontier@[t] == j as usize;
                        assert(adjacent(frontier@[t] as int, i));
                    }
                }
            }
            assert forall|i: int| 0 <= i < NUM_TILES && #[trigger] dist@[i] != UNREACHABLE implies {
                &&& dist@[i] <= k + 1
                &&& reached(tiles, sd, dist@[i] as nat, i)
                &&& dist@[i] > 0 ==> !reached(tiles, sd, (dist@[i] - 1) as nat, i)
            } by {
                if before[i] == UNREACHABLE {
                    assert(dist@[i] == k + 1);
                    assert(reached(tiles, sd, kn + 1, i));
                }
            }
        }
        frontier = next;
        k = k + 1;
    }
    proof {
        let kn = k as nat;
        if k < radius {
            // The last layer was empty: nothing new is ever reached.
            assert forall|i: int| 0 <= i < NUM_TILES && reached(tiles, sd, kn + 1, i) implies reached(
                tiles,
                sd,
                kn,
                i,
            ) by {
                if !reached(tiles, sd, kn, i) {
                    lemma_reached_unfold(tiles, sd, kn + 1, i);
                    let j = choose|j: int| adjacent(j, i) && #[trigger] reached(tiles, sd, kn, j);
                    assert(dist@[j] != k);
                    lemma_reached_step(tiles, sd, dist@[j] as nat, j, i);
                    lemma_reached_mono(tiles, sd, dist@[j] as nat + 1, kn, i);
                }
            }
            lemma_reached_stable(tiles, sd, kn, radius as nat);
        }
        let d = field_of(tiles, sd, radius as nat);
        assert(is_distance_field(tiles, sd, radius as nat, dist@));
        assert(is_distance_field(tiles, sd, radius as nat, d));
        lemma_distance_field_unique(tiles, sd, radius as nat, dist@, d);
    }
    dist
}

/// Once a step reaches nothing new, no later step does.
proof fn lemma_reached_stable(tiles: Seq<TileType>, seeds: Seq<usize>, k: nat, m: nat)
    requires
        k <= m,
        forall|i: int| 0 <= i < NUM_TILES ==> (reached(tiles, seeds, k + 1, i) ==> reached(tiles, seeds, k, i)),
        tiles.len() == NUM_TILES,
    ensures
        forall|i: int| 0 <= i < NUM_TILES ==> (reached(tiles, seeds, m, i) == reached(tiles, seeds, k, i)),
    decreases m - k,
{
    if k < m {
        lemma_reached_stable(tiles, seeds, k, (m - 1) as nat);
        let pm = (m - 1) as nat;
        assert forall|i: int| 0 <= i < NUM_TILES implies (reached(tiles, seeds, m, i) == reached(
            tiles,
            seeds,
            k,
            i,
        )) by {
            if reached(tiles, seeds, k, i) {
                lemma_reached_mono(tiles, seeds, k, m, i);
            }
            lemma_reached_unfold(tiles, seeds, m, i);
            if reached(tiles, seeds, m, i) && !reached(tiles, seeds, pm, i) {
                let j = choose|j: int| adjacent(j, i) && #[trigger] reached(tiles, seeds, pm, j);
                assert(reached(tiles, seeds, k, j));
                lemma_reached_step(tiles, seeds, k, j, i);
            }
        }
    }
}

} // verus!
