pub mod app;
pub mod mesh;
pub mod renderer2d;
pub mod texture_manager;
