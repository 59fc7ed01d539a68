//! A generalized multi-state cellular automaton engine.
//!
//! Each cell of a dense 2D grid holds a discrete [`cell_type::CellType`];
//! every simulation step computes, per cell, a windowed convolution of the
//! surrounding field values with a per-type kernel, then applies an ordered
//! rule table to decide the cell's next type.  A quad-tree dirty tracker
//! limits recomputation to the regions that changed since the last step.

pub mod app_config;
pub mod cell_type;
pub mod matrix;
pub mod convolution;
pub mod index_set;
pub mod quad_tree;
pub mod rules;
pub mod rugol;
pub mod save_file;
mod random;
