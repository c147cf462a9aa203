//! Conway's Game of Life on a fixed-size rectangular grid.
//!
//! The grid is a flat, row-major buffer of cells together with its width and
//! height. The simulation engine advances the grid one generation at a time
//! under the classic neighbor-counting rule, with the outermost ring of cells
//! frozen (a bounded, non-wrapping universe). Text maps can be parsed into a
//! grid and a grid serialized back to text.

pub mod laws;
pub mod manager;
