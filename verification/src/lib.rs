//! The verified core of the Aurora game runtime.

pub mod arena;
pub mod bodies;
pub mod bytes;
pub mod canvas;
pub mod debug;
pub mod decode;
pub mod events;
pub mod font;
pub mod graph;
pub mod guest;
pub mod host;
pub mod images;
pub mod inbox;
pub mod input;
pub mod json;
pub mod nav;
pub mod navmesh;
pub mod prelude;
pub mod prof;
pub mod rng;
pub mod scene;
pub mod schedule;
pub mod session;
pub mod shader;
pub mod slot;
pub mod sound;
pub mod span;
pub mod terrain;
pub mod text;
pub mod typeface;
pub mod vstack;
pub mod wire;
pub mod world;
