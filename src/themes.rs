use vstd::prelude::*;
use crate::map::TileType;

verus! {

/// One of the built-in palettes.
#[derive(Clone, Copy, Debug, PartialEq, Eq, Structural)]
pub enum Theme {
    Dungeon,
    Forest,
}

/// The symbol that `theme` shows for `tile`.
pub open spec fn theme_glyph(theme: Theme, tile: TileType) -> char {
    match (theme, tile) {
        (Theme::Dungeon, TileType::Floor) => '.',
        (Theme::Dungeon, TileType::Wall) => '#',
        (Theme::Forest, TileType::Floor) => ';',
        (Theme::Forest, TileType::Wall) => '"',
    }
}

/// A mapping from tile state to a display symbol.
pub trait MapTheme {
    /// The symbol shown for `tile_type`.
    spec fn symbol(&self, tile_type: TileType) -> char;

    fn tile_to_render(&self, tile_type: TileType) -> (r: char)
        ensures
            r == self.symbol(tile_type),
    ;
}

impl MapTheme for Theme {
    open spec fn symbol(&self, tile_type: TileType) -> char {
        theme_glyph(*self, tile_type)
    }

    fn tile_to_render(&self, tile_type: TileType) -> (r: char) {
        match (*self, tile_type) {
            (Theme::Dungeon, TileType::Floor) => '.',
            (Theme::Dungeon, TileType::Wall) => '#',
            (Theme::Forest, TileType::Floor) => ';',
            (Theme::Forest, TileType::Wall) => '"',
        }
    }
}

} // verus!
