//! What lore persists: the command library and how it is edited.

pub mod definitions;
pub mod layers;
pub mod patterns;
