//! The game logic of HyperZen Training: maze generation and analysis,
//! glyph layout, scores, input bindings and the small state machines of
//! the game's components.

pub mod audio;
pub mod component;
pub mod entity;
pub mod graphics;
pub mod maze;
pub mod resource;
pub mod random;
pub mod system;
