use vstd::prelude::*;
use crate::geometry::Point;

verus! {

pub const DISPLAY_WIDTH: i32 = 40;
pub const DISPLAY_HEIGHT: i32 = 25;

/// The window of the grid that is on screen, centred on the player.
#[derive(Clone, Copy, Debug, PartialEq, Eq, Structural)]
pub struct Camera {
    pub left_x: i32,
    pub right_x: i32,
    pub top_y: i32,
    pub bottom_y: i32,
}

/// The camera centred on `p`.
pub open spec fn centred_on(c: Camera, p: Point) -> bool {
    &&& c.left_x == p.x - DISPLAY_WIDTH / 2
    &&& c.right_x == p.x + DISPLAY_WIDTH / 2
    &&& c.top_y == p.y - DISPLAY_HEIGHT / 2
    &&& c.bottom_y == p.y + DISPLAY_HEIGHT / 2
}

pub open spec fn camera_fits(p: Point) -> bool {
    i32::MIN + DISPLAY_WIDTH <= p.x <= i32::MAX - DISPLAY_WIDTH && i32::MIN + DISPLAY_HEIGHT <= p.y
        <= i32::MAX - DISPLAY_HEIGHT
}

impl Camera {
    pub fn new(player_position: Point) -> (r: Camera)
        requires
            camera_fits(player_position),
        ensures
            centred_on(r, player_position),
    {
        Camera {
            left_x: player_position.x - DISPLAY_WIDTH / 2,
            right_x: player_position.x + DISPLAY_WIDTH / 2,
            top_y: player_position.y - DISPLAY_HEIGHT / 2,
            bottom_y: player_position.y + DISPLAY_HEIGHT / 2,
        }
    }

    pub fn on_player_move(&mut self, player_position: Point)
        requires
            camera_fits(player_position),
        ensures
            centred_on(*final(self), player_position),
    {
        self.left_x = player_position.x - DISPLAY_WIDTH / 2;
        self.right_x = player_position.x + DISPLAY_WIDTH / 2;
        self.top_y = player_position.y - DISPLAY_HEIGHT / 2;
        self.bottom_y = player_position.y + DISPLAY_HEIGHT / 2;
    }
}

} // verus!
