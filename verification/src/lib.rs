//! Unison 2D engine core: the integer and text logic of the engine, verified.

pub mod rng;
pub mod level;
pub mod text;
pub mod filter;
pub mod mesh;
pub mod lighting;
pub mod world;
pub mod texture;
pub mod font;
pub mod sprite;
pub mod renderer;
pub mod decode;
pub mod logging;
pub mod color;
pub mod spatial;
pub mod boundary;
pub mod history;
pub mod topology;
