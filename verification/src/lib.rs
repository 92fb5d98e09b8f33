//! Procedural terrain generation for a tile-based dungeon.
//!
//! A seed string and a set of generation parameters are turned into a fully
//! enclosed grid of typed tiles: cellular-automaton cave carving, region
//! analysis by flood fill, guaranteed-connectivity repair, and secondary
//! feature layering (lakes, flora, camps and nests).

pub mod cellular;
pub mod components;
pub mod config;
pub mod features;
pub mod grid;
pub mod gui;
pub mod map;
pub mod random;
pub mod reach;
pub mod seed;
pub mod tags;
pub mod tile;
