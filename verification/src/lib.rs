//! A chunked 2D pixel canvas on a torus, with dirty-rectangle tracking and
//! GPU upload planning, plus the turmite (Langton's ant) simulation that
//! draws on it and a few small input-handling decisions.
pub mod chunks;
pub mod layout;
pub mod types;
pub mod dirty;
pub mod config;
pub mod torus;
pub mod paint;
pub mod blit;
pub mod upload;
pub mod messages;
pub mod systems;
pub mod langton;
pub mod random;
pub mod camera;
pub mod fps;
