//! Procedural dungeon generation on a square grid of cells.
//!
//! The generator splits the grid with thin walls, extracts the open regions
//! as rectangles, shrinks them into rooms, links neighbouring rooms with
//! walled corridors and finally stamps obstacles into the rooms.  Every stage
//! is an ordinary function with a contract over the mathematical view of the
//! grid.
//!
//! Beside the generator stand the path search for the creatures of the
//! dungeon and a few small things that the game around it needs: the way a
//! walker faces, colours written as text, and rooms drawn by hand.

pub mod rect;
pub mod grid;
pub mod rng;
pub mod partition;
pub mod bsp;
pub mod regions;
pub mod tiling;
pub mod shrink;
pub mod adjacency;
pub mod paths;
pub mod post;
pub mod world;
pub mod gen;
pub mod queue;
pub mod astar;
pub mod facing;
pub mod color;
pub mod levels;
