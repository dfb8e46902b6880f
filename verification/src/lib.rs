//! Verified solvers for eleven puzzles on text input, from a calibration
//! document to an image of galaxies. Each solver module offers `part_1` and
//! `part_2`, which take the whole input and return the answer in decimal, or
//! say what is wrong with the input.
//!
//! The largest of them is the pipe maze: `grid` holds a rectangular grid with
//! bounds-checked access, `tile` the alphabet of the maze, `walk` the model of
//! walkers that follow the pipes, `tracer` the search for the loop through the
//! start, `enclosure` the count of the cells that the loop encloses, and
//! `pipe_maze` the two solvers. `loop_laws`, `cycle_laws` and `enclosure_laws`
//! prove what holds of every loop found, what is found on a proper loop, and
//! what the count of enclosed cells does not depend on.

pub mod grid;
pub mod text;
pub mod tile;
pub mod walk;
pub mod tracer;
pub mod loop_laws;
pub mod cycle_laws;
pub mod enclosure;
pub mod enclosure_laws;
pub mod pipe_maze;
pub mod calibration;
pub mod cubes;
pub mod schematic;
pub mod scratchcards;
pub mod almanac;
pub mod races;
pub mod camel_cards;
pub mod network;
pub mod oasis;
pub mod galaxies;
