//! Random walks through a park of intersections and alleys, and the linear
//! systems that give the chance of leaving the park through an exit.
//!
//! A park is read from text and built into a [`Config`]. The chance to get
//! out can be had in two ways: by solving a linear system, held as a dense
//! [`Matrix`] or as a [`Sparse`] one, by elimination or by relaxation; and
//! by walking through the park at random, many times over.
//!
//! The numbers of a system are binary64 numbers, held as their 64 bits. The
//! library compares them and moves them about; the arithmetic on them is
//! done by a unit that the caller hands to each solver.

pub mod base;
pub mod config;
pub mod matrix;
pub mod monte_carlo;
pub mod number;
pub mod parse;
pub mod solver;
pub mod sparse;
pub mod system;

pub use crate::base::{Grid, MatrixBase, MatrixError};
pub use crate::config::{Alley, Config, Intersection, Park, Sets};
pub use crate::matrix::Matrix;
pub use crate::number::Op;
pub use crate::parse::parse_config;
pub use crate::sparse::Sparse;
