//! A dimension-agnostic cellular-automaton engine, with Conway's Game of
//! Life as its reference instance and a plain-text grid format.

pub mod world;
pub mod life;
pub mod text;
