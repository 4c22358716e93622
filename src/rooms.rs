use vstd::prelude::*;
use bracket_random::prelude::RandomNumberGenerator;
use crate::geometry::{Point, Rect, center_of};
use crate::map::{TileMap, TileType, idx_of, is_floor};
use crate::map_builder::{
    MapBuilder, GenerationError, NUM_ROOMS, finish_level, rooms_disjoint, sorted_by_center_x,
    corridors_join, room_carved, valid_room, lemma_room_persists,
};
use crate::themes::Theme;

verus! {

/// Room packing: non-overlapping random rooms joined by corridors.
pub struct RoomsArchitect {}

impl RoomsArchitect {
    /// A level of `NUM_ROOMS` rooms, pairwise apart, joined in order of
    /// their centers' columns; the player starts at the center of the first
    /// room placed.
    pub fn new(&mut self, rng: &mut RandomNumberGenerator) -> (r: Result<MapBuilder, GenerationError>)
        ensures
            r matches Ok(mb) ==> {
                &&& mb.is_valid_level()
                &&& mb.rooms@.len() == NUM_ROOMS
                &&& rooms_disjoint(mb.rooms@)
                &&& forall|i: int|
                    0 <= i < mb.rooms@.len() ==> valid_room(#[trigger] mb.rooms@[i]) && room_carved(
                        mb.map.tiles@,
                        mb.rooms@[i],
                    )
                &&& mb.player_start == center_of(mb.rooms@[0])
                &&& exists|s: Seq<Rect>|
                    sorted_by_center_x(s, mb.rooms@) && corridors_join(mb.map.tiles@, s)
            },
    {
        let mut mb = MapBuilder {
            map: TileMap::new(),
            rooms: Vec::new(),
            monster_spawns: Vec::new(),
            player_start: Point::zero(),
            amulet_start: Point::zero(),
            theme: Theme::Dungeon,
        };
        mb.fill(TileType::Wall);
        mb.build_random_rooms(rng);
        if mb.rooms.len() < NUM_ROOMS {
            return Err(GenerationError::Exhausted);
        }
        let ghost carved = mb.map.tiles@;
        let sorted = mb.build_corridors(rng);
        let first = mb.rooms[0];
        mb.player_start = first.center();
        proof {
            assert forall|i: int|
                0 <= i < mb.rooms@.len() implies valid_room(#[trigger] mb.rooms@[i]) && room_carved(
                mb.map.tiles@,
                mb.rooms@[i],
            ) by {
                lemma_room_persists(carved, mb.map.tiles@, mb.rooms@[i]);
            }
            lemma_room_persists(carved, mb.map.tiles@, first);
            let c = center_of(first);
            assert(room_carved(mb.map.tiles@, first));
            assert(first.x1 <= c.x < first.x2 && first.y1 <= c.y < first.y2);
            assert(is_floor(mb.map.tiles@, idx_of(c.x as int, c.y as int)));
        }
        let ghost tiles = mb.map.tiles@;
        let ghost rooms = mb.rooms@;
        let r = finish_level(mb, rng);
        proof {
            if r is Ok {
                assert(sorted_by_center_x(sorted@, rooms) && corridors_join(tiles, sorted@));
            }
        }
        r
    }
}

} // verus!
