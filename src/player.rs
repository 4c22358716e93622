use vstd::prelude::*;
use crate::geometry::Point;
use crate::map::{TileMap, floor_at};

verus! {

/// A key press as the movement rules see it.
#[derive(Clone, Copy, Debug, PartialEq, Eq, Structural)]
pub enum Key {
    Left,
    Right,
    Up,
    Down,
    Other,
}

/// The step that a key asks for.
pub open spec fn key_delta(key: Key) -> (int, int) {
    match key {
        Key::Left => (-1, 0),
        Key::Right => (1, 0),
        Key::Up => (0, -1),
        Key::Down => (0, 1),
        Key::Other => (0, 0),
    }
}

pub struct Player {
    pub position: Point,
}

impl Player {
    pub fn new(position: Point) -> (r: Player)
        ensures
            r.position == position,
    {
        Player { position }
    }

    /// Moves one step as `key` asks, when the target tile can be entered.
    pub fn update(&mut self, key: Option<Key>, map: &TileMap)
        requires
            old(self).position.x > i32::MIN,
            old(self).position.x < i32::MAX,
            old(self).position.y > i32::MIN,
            old(self).position.y < i32::MAX,
            map.wf(),
        ensures
            key is None ==> final(self).position == old(self).position,
            key matches Some(k) ==> {
                let t = Point {
                    x: (old(self).position.x + key_delta(k).0) as i32,
                    y: (old(self).position.y + key_delta(k).1) as i32,
                };
                final(self).position == if floor_at(map.tiles@, t) {
                    t
                } else {
                    old(self).position
                }
            },
    {
        if let Some(key) = key {
            let delta = match key {
                Key::Left => Point::new(-1, 0),
                Key::Right => Point::new(1, 0),
                Key::Up => Point::new(0, -1),
                Key::Down => Point::new(0, 1),
                Key::Other => Point::zero(),
            };
            let new_position = Point::new(self.position.x + delta.x, self.position.y + delta.y);
            if map.can_enter_tile(new_position) {
                self.position = new_position;
            }
        }
    }
}

} // verus!
