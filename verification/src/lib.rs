//! Biomass: a turn-based containment puzzle on a grid of cells and edges.
//!
//! The library holds the rules of the game: the facility grid with its cells
//! and wall edges, the spread of the biomass, the sealed-enclosure die-off
//! rule, the level set, the turn state machine, locale-tag handling and the
//! save record format. Rendering, input, audio and file access live outside.

pub mod grid;
pub mod bfs;
pub mod level;
pub mod state;
pub mod text;
pub mod i18n;
pub mod storage;
pub mod sound;
