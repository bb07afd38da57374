//! A rectangular grid of cells whose directional links form the skeleton of a
//! maze: positions, compass directions, cells with at most one neighbor per
//! direction, and a grid with symmetric linking and traversal views.

pub mod cell;
pub mod maze;

pub use cell::Cell;
pub use cell::Direction;
pub use cell::Point;
pub use cell::dir_from;
pub use cell::opposite;
pub use maze::EachCell;
pub use maze::EachCol;
pub use maze::EachRow;
pub use maze::Maze;
pub use maze::RandCell;
