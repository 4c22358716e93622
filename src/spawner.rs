use vstd::prelude::*;
use bracket_random::prelude::RandomNumberGenerator;
use crate::geometry::Point;
use crate::rng::rng_roll_dice;

verus! {

/// What the player entity is made of when it enters the world.
pub struct PlayerSpawn {
    pub position: Point,
    pub glyph: char,
    pub current_hp: i32,
    pub max_hp: i32,
}

/// What a monster entity is made of when it enters the world.
pub struct MonsterSpawn {
    pub position: Point,
    pub glyph: char,
    pub current_hp: i32,
    pub max_hp: i32,
    pub name: String,
}

/// The player, with 20 of 20 hit points, drawn as `@`.
pub fn spawn_player(pos: Point) -> (r: PlayerSpawn)
    ensures
        r.position == pos,
        r.glyph == '@',
        r.current_hp == 20,
        r.max_hp == 20,
{
    PlayerSpawn { position: pos, glyph: '@', current_hp: 20, max_hp: 20 }
}

/// Hit points, name and glyph of a goblin.
pub fn goblin() -> (r: (i32, String, char))
    ensures
        r.0 == 1,
        r.1@ == "Goblin"@,
        r.2 == 'g',
{
    (1, "Goblin".to_owned(), 'g')
}

/// Hit points, name and glyph of an orc.
pub fn orc() -> (r: (i32, String, char))
    ensures
        r.0 == 2,
        r.1@ == "Orc"@,
        r.2 == 'o',
{
    (2, "Orc".to_owned(), 'o')
}

/// The monster for a roll of a ten-sided die: a goblin on 1 to 8, an orc
/// on 9 or 10.
pub fn monster_for_roll(roll: i32, pos: Point) -> (r: MonsterSpawn)
    ensures
        r.position == pos,
        r.current_hp == r.max_hp,
        1 <= roll <= 8 ==> r.max_hp == 1 && r.name@ == "Goblin"@ && r.glyph == 'g',
        !(1 <= roll <= 8) ==> r.max_hp == 2 && r.name@ == "Orc"@ && r.glyph == 'o',
{
    let (hp, name, glyph) = if 1 <= roll && roll <= 8 {
        goblin()
    } else {
        orc()
    };
    MonsterSpawn { position: pos, glyph, current_hp: hp, max_hp: hp, name }
}

/// A random monster at `pos`: a goblin four times in five, else an orc.
pub fn spawn_monster(rng: &mut RandomNumberGenerator, pos: Point) -> (r: MonsterSpawn)
    ensures
        r.position == pos,
        r.current_hp == r.max_hp,
        (r.max_hp == 1 && r.name@ == "Goblin"@ && r.glyph == 'g') || (r.max_hp == 2 && r.name@
            == "Orc"@ && r.glyph == 'o'),
{
    let roll = rng_roll_dice(rng, 1, 10);
    monster_for_roll(roll, pos)
}

} // verus!
