use vstd::prelude::*;
use bracket_random::prelude::RandomNumberGenerator;
use crate::camera::{Camera, centred_on};
use crate::geometry::{Point, one_step};
use crate::map::{TileMap, TileType, floor_at, point_in_grid, idx_of, map_idx, SCREEN_WIDTH, SCREEN_HEIGHT};
use crate::themes::{Theme, theme_glyph};
use crate::rng::rng_range;

verus! {

/// Carries out a request to move to `destination`: it succeeds when the
/// tile can be entered, and the camera then follows the player.
pub fn movement(map: &TileMap, camera: &mut Camera, destination: Point, mover_is_player: bool) -> (moved: bool)
    requires
        map.wf(),
    ensures
        moved == floor_at(map.tiles@, destination),
        moved && mover_is_player ==> centred_on(*final(camera), destination),
        !(moved && mover_is_player) ==> *final(camera) == *old(camera),
{
    if map.can_enter_tile(destination) {
        if mover_is_player {
            camera.on_player_move(destination);
        }
        true
    } else {
        false
    }
}

/// What a wandering monster does this turn.
#[derive(Clone, Copy, Debug, PartialEq, Eq, Structural)]
pub enum MonsterIntent {
    Move(Point),
    Attack(Point),
    Stay,
}

/// Some entity with health stands at `p`.
pub open spec fn occupied(occupants: Seq<(Point, bool)>, p: Point) -> bool {
    exists|k: int| 0 <= k < occupants.len() && (#[trigger] occupants[k]).0 == p
}

/// The player stands at `p`.
pub open spec fn player_at(occupants: Seq<(Point, bool)>, p: Point) -> bool {
    exists|k: int| 0 <= k < occupants.len() && (#[trigger] occupants[k]).0 == p && occupants[k].1
}

/// The intent toward `destination`: attack the player there, stay when
/// anyone else is there, move otherwise.
pub open spec fn intent_toward(occupants: Seq<(Point, bool)>, destination: Point) -> MonsterIntent {
    if player_at(occupants, destination) {
        MonsterIntent::Attack(destination)
    } else if occupied(occupants, destination) {
        MonsterIntent::Stay
    } else {
        MonsterIntent::Move(destination)
    }
}

/// Decides the intent toward `destination`, given every entity with health
/// as its position and whether it is the player.
pub fn monster_intent(destination: Point, occupants: &Vec<(Point, bool)>) -> (r: MonsterIntent)
    ensures
        r == intent_toward(occupants@, destination),
{
    let mut attacked = false;
    let mut hits_player = false;
    let mut k: usize = 0;
    while k < occupants.len()
        invariant
            k <= occupants@.len(),
            attacked <==> exists|t: int| 0 <= t < k && (#[trigger] occupants@[t]).0 == destination,
            hits_player <==> exists|t: int|
                0 <= t < k && (#[trigger] occupants@[t]).0 == destination && occupants@[t].1,
        decreases occupants@.len() - k,
    {
        let (pos, is_player) = occupants[k];
        if pos == destination {
            attacked = true;
            if is_player {
                hits_player = true;
            }
        }
        k += 1;
    }
    if hits_player {
        MonsterIntent::Attack(destination)
    } else if attacked {
        MonsterIntent::Stay
    } else {
        MonsterIntent::Move(destination)
    }
}

/// A monster at `pos` picks one of the four orthogonal steps at random and
/// decides what to do toward it.
pub fn random_move(rng: &mut RandomNumberGenerator, pos: Point, occupants: &Vec<(Point, bool)>) -> (r: MonsterIntent)
    requires
        i32::MIN < pos.x < i32::MAX,
        i32::MIN < pos.y < i32::MAX,
    ensures
        exists|d: Point| one_step(pos, d) && r == intent_toward(occupants@, d),
{
    let destination = match rng_range(rng, 0, 4) {
        0 => Point::new(pos.x - 1, pos.y),
        1 => Point::new(pos.x + 1, pos.y),
        2 => Point::new(pos.x, pos.y - 1),
        _ => Point::new(pos.x, pos.y + 1),
    };
    let r = monster_intent(destination, occupants);
    assert(one_step(pos, destination));
    r
}

/// `pt` lies in the camera's window: columns `left_x` up to, not including,
/// `right_x`, rows `top_y` through `bottom_y`.
pub open spec fn in_window(camera: Camera, pt: Point) -> bool {
    camera.left_x <= pt.x < camera.right_x && camera.top_y <= pt.y <= camera.bottom_y
}

/// `pt` as seen on screen through `camera`.
pub open spec fn to_screen(camera: Camera, pt: Point) -> Point {
    Point { x: (pt.x - camera.left_x) as i32, y: (pt.y - camera.top_y) as i32 }
}

/// The draw command for grid tile `pt`.
pub open spec fn tile_draw(tiles: Seq<TileType>, camera: Camera, pt: Point) -> (Point, char) {
    (to_screen(camera, pt), theme_glyph(Theme::Dungeon, tiles[idx_of(pt.x as int, pt.y as int)]))
}

/// The grid position that screen position `s` shows through `camera`.
pub open spec fn from_screen(camera: Camera, s: Point) -> Point {
    Point { x: (s.x + camera.left_x) as i32, y: (s.y + camera.top_y) as i32 }
}

/// `e` is the draw command of a grid tile in the camera's window.
pub open spec fn is_tile_draw(tiles: Seq<TileType>, camera: Camera, e: (Point, char)) -> bool {
    let pt = from_screen(camera, e.0);
    in_window(camera, pt) && point_in_grid(pt) && e == tile_draw(tiles, camera, pt)
}

/// The draw commands of the grid tiles in the camera's window, row by row:
/// each holds the screen position and the symbol of the tile (`.` for
/// Floor, `#` for Wall).
pub fn map_render(map: &TileMap, camera: &Camera) -> (r: Vec<(Point, char)>)
    requires
        map.wf(),
        camera.left_x >= i32::MIN + SCREEN_WIDTH,
        camera.top_y >= i32::MIN + SCREEN_HEIGHT,
    ensures
        forall|k: int| 0 <= k < r@.len() ==> is_tile_draw(map.tiles@, *camera, #[trigger] r@[k]),
        forall|pt: Point|
            in_window(*camera, pt) && point_in_grid(pt) ==> r@.contains(
                #[trigger] tile_draw(map.tiles@, *camera, pt),
            ),
{
    broadcast use vstd::seq_lib::lemma_seq_contains_after_push;

    let mut draw_batch: Vec<(Point, char)> = Vec::new();
    let y_lo: i32 = if camera.top_y > 0 { camera.top_y } else { 0 };
    let y_hi: i32 = if camera.bottom_y < SCREEN_HEIGHT - 1 { camera.bottom_y } else { SCREEN_HEIGHT - 1 };
    let x_lo: i32 = if camera.left_x > 0 { camera.left_x } else { 0 };
    let x_hi: i32 = if camera.right_x < SCREEN_WIDTH { camera.right_x } else { SCREEN_WIDTH };
    let mut y: i32 = y_lo;
    while y <= y_hi
        invariant
            map.wf(),
            camera.left_x >= i32::MIN + SCREEN_WIDTH,
            camera.top_y >= i32::MIN + SCREEN_HEIGHT,
            0 <= y_lo,
            y_hi < SCREEN_HEIGHT,
            y_lo <= y <= y_hi + 1 || y == y_lo,
            y_lo == if camera.top_y > 0 { camera.top_y } else { 0 },
            y_hi == if camera.bottom_y < SCREEN_HEIGHT - 1 { camera.bottom_y as int } else { SCREEN_HEIGHT - 1 },
            x_lo == if camera.left_x > 0 { camera.left_x } else { 0 },
            x_hi == if camera.right_x < SCREEN_WIDTH { camera.right_x } else { SCREEN_WIDTH },
            forall|k: int| 0 <= k < draw_batch@.len() ==> is_tile_draw(map.tiles@, *camera, #[trigger] draw_batch@[k]),
            forall|pt: Point|
                in_window(*camera, pt) && point_in_grid(pt) && pt.y < y ==> draw_batch@.contains(
                    #[trigger] tile_draw(map.tiles@, *camera, pt),
                ),
        decreases y_hi + 1 - y,
    {
        let mut x: i32 = x_lo;
        while x < x_hi
            invariant
                map.wf(),
                camera.left_x >= i32::MIN + SCREEN_WIDTH,
                camera.top_y >= i32::MIN + SCREEN_HEIGHT,
                0 <= y_lo <= y <= y_hi,
                y_hi < SCREEN_HEIGHT,
                y_lo == if camera.top_y > 0 { camera.top_y } else { 0 },
                y_hi == if camera.bottom_y < SCREEN_HEIGHT - 1 { camera.bottom_y as int } else { SCREEN_HEIGHT - 1 },
                x_lo == if camera.left_x > 0 { camera.left_x } else { 0 },
                x_hi == if camera.right_x < SCREEN_WIDTH { camera.right_x } else { SCREEN_WIDTH },
                x_lo <= x <= x_hi || x == x_lo,
                forall|k: int| 0 <= k < draw_batch@.len() ==> is_tile_draw(map.tiles@, *camera, #[trigger] draw_batch@[k]),
                forall|pt: Point|
                    in_window(*camera, pt) && point_in_grid(pt) && (pt.y < y || (pt.y == y && pt.x < x))
                        ==> draw_batch@.contains(#[trigger] tile_draw(map.tiles@, *camera, pt)),
            decreases x_hi - x,
        {
            let pt = Point::new(x, y);
            let idx = map_idx(x, y);
            let glyph = match map.tiles[idx] {
                TileType::Floor => '.',
                TileType::Wall => '#',
            };
            let ghost before = draw_batch@;
            draw_batch.push((Point::new(x - camera.left_x, y - camera.top_y), glyph));
            proof {
                assert(draw_batch@[draw_batch@.len() - 1] == tile_draw(map.tiles@, *camera, pt));
                assert(from_screen(*camera, to_screen(*camera, pt)) == pt);
                assert forall|k: int|
                    0 <= k < draw_batch@.len() implies is_tile_draw(map.tiles@, *camera, #[trigger] draw_batch@[k]) by {
                    if k < before.len() {
                        assert(draw_batch@[k] == before[k]);
                    }
                }
                assert forall|q: Point|
                    in_window(*camera, q) && point_in_grid(q) && (q.y < y || (q.y == y && q.x < x + 1))
                        implies draw_batch@.contains(#[trigger] tile_draw(map.tiles@, *camera, q)) by {
                    if q == pt {
                        assert(draw_batch@[draw_batch@.len() - 1] == tile_draw(map.tiles@, *camera, q));
                    } else {
                        assert(before.contains(tile_draw(map.tiles@, *camera, q)));
                        let w = choose|w: int| 0 <= w < before.len() && before[w] == tile_draw(map.tiles@, *camera, q);
                        assert(draw_batch@[w] == before[w]);
                    }
                }
            }
            x += 1;
        }
        y += 1;
    }
    draw_batch
}

/// Where each entity is drawn: its position seen through the camera, with
/// its glyph.
pub fn entity_render(entities: &Vec<(Point, char)>, camera: &Camera) -> (r: Vec<(Point, char)>)
    requires
        forall|k: int|
            0 <= k < entities@.len() ==> i32::MIN <= (#[trigger] entities@[k]).0.x - camera.left_x
                <= i32::MAX && i32::MIN <= entities@[k].0.y - camera.top_y <= i32::MAX,
    ensures
        r@.len() == entities@.len(),
        forall|k: int|
            0 <= k < r@.len() ==> #[trigger] r@[k] == (to_screen(*camera, entities@[k].0), entities@[k].1),
{
    let mut draw_batch: Vec<(Point, char)> = Vec::new();
    let mut k: usize = 0;
    while k < entities.len()
        invariant
            k <= entities@.len(),
            draw_batch@.len() == k,
            forall|j: int|
                0 <= j < entities@.len() ==> i32::MIN <= (#[trigger] entities@[j]).0.x - camera.left_x
                    <= i32::MAX && i32::MIN <= entities@[j].0.y - camera.top_y <= i32::MAX,
            forall|j: int|
                0 <= j < k ==> #[trigger] draw_batch@[j] == (
                    to_screen(*camera, entities@[j].0),
                    entities@[j].1,
                ),
        decreases entities@.len() - k,
    {
        let (pos, glyph) = entities[k];
        draw_batch.push((Point::new(pos.x - camera.left_x, pos.y - camera.top_y), glyph));
        k += 1;
    }
    draw_batch
}

/// The indices of the entities that stand at `target`, in order.
pub fn entities_at(positions: &Vec<Point>, target: Point) -> (r: Vec<usize>)
    ensures
        forall|t: int| 0 <= t < r@.len() ==> #[trigger] r@[t] < positions@.len() && positions@[r@[t] as int] == target,
        forall|k: int| 0 <= k < positions@.len() && positions@[k] == target ==> r@.contains(k as usize),
        forall|a: int, b: int| 0 <= a < b < r@.len() ==> #[trigger] r@[a] < #[trigger] r@[b],
{
    let mut r: Vec<usize> = Vec::new();
    let mut k: usize = 0;
    while k < positions.len()
        invariant
            k <= positions@.len(),
            forall|t: int| 0 <= t < r@.len() ==> #[trigger] r@[t] < k && positions@[r@[t] as int] == target,
            forall|j: int| 0 <= j < k && positions@[j] == target ==> r@.contains(j as usize),
            forall|a: int, b: int| 0 <= a < b < r@.len() ==> #[trigger] r@[a] < #[trigger] r@[b],
        decreases positions@.len() - k,
    {
        if positions[k] == target {
            let ghost before = r@;
            r.push(k);
            proof {
                assert forall|j: int| 0 <= j < k + 1 && positions@[j] == target implies r@.contains(j as usize) by {
                    if j < k {
                        let w = choose|w: int| 0 <= w < before.len() && before[w] == j as usize;
                        assert(r@[w] == j as usize);
                    } else {
                        assert(r@[r@.len() - 1] == k);
                    }
                }
            }
        }
        k += 1;
    }
    r
}

} // verus!
