//! Brass Engine: the entity–component world, input state, tile maps, animation state
//! machines, tile collision grids and the discrete parts of the 2D renderer.

use vstd::prelude::*;

pub mod animation;
pub mod ecs;
pub mod input;
pub mod physics2d;
pub mod render;
pub mod tilemap;

pub use animation::{Animator, AnimatorParams, Transition, TransitionCondition};
pub use ecs::components::Tag;
pub use ecs::script::ScriptComponent;
pub use ecs::systems::cleanup_system;
pub use ecs::world::{Entity, World};
pub use input::{Input, Key, MouseButton};
pub use render::app::AppConfig;
pub use render::texture_manager::TextureManager;
pub use tilemap::{TileLayer, TileMap, TileMapBuilder, TileMeta, TileSet};

verus! {

} // verus!
