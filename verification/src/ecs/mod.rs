pub mod components;
pub mod script;
pub mod systems;
pub mod world;
