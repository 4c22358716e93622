//! Procedural level generation for a grid-based dungeon crawler: a tile grid,
//! a multi-source distance field over it, three generation strategies, and a
//! level builder that places the player, the goal and the monsters.

pub mod geometry;
pub mod map;
pub mod rng;
pub mod distance;
pub mod themes;
pub mod map_builder;
pub mod rooms;
pub mod automata;
pub mod drunkard;
pub mod prefab;
pub mod camera;
pub mod player;
pub mod spawner;
pub mod systems;
pub mod template;
pub mod turn;
