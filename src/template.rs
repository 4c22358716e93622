use vstd::prelude::*;
use std::collections::HashSet;

verus! {

/// Whether a template describes a monster or an item.
#[derive(Clone, Copy, Debug, PartialEq, Eq, Structural)]
pub enum EntityType {
    Enemy,
    Item,
}

/// The stats of one kind of monster or item, as the template table gives it.
#[derive(Debug)]
pub struct Template {
    pub entity_type: EntityType,
    pub levels: HashSet<usize>,
    pub frequency: i32,
    pub name: String,
    pub glyph: char,
    pub provides: Option<Vec<(String, i32)>>,
    pub hp: Option<i32>,
}

/// The whole template table.
#[derive(Debug)]
pub struct Templates {
    pub entities: Vec<Template>,
}

} // verus!
