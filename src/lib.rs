//! Two small searches over boolean sequences: the placement of a run of set
//! bits that lies closest to a bit pattern, and a hill-climbing solver for
//! nonogram puzzles.

pub mod bits;
pub mod scan;
pub mod encode;
pub mod random;
pub mod board;
pub mod solver;
pub mod input;
