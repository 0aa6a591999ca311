//! Grid-based spatial reasoning for tile-oriented worlds: integer geometric
//! primitives, line and circle rasterizers, field-of-view computation, and
//! pathfinding (A* search and a Dijkstra-style flood-fill distance map) over
//! an abstract map capability interface, together with the small value types
//! (colors, tiles, window configuration, dice descriptions) shared with the
//! layers built on top.

pub mod color;
pub mod config;
pub mod console;
pub mod fieldofview;
pub mod geometry;
pub mod grid_map;
pub mod parsing;
pub mod pathfinding;
pub mod rex;
