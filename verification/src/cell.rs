//! Grid coordinates, compass directions, and the cell node of the maze grid.

use vstd::prelude::*;

verus! {

/// A grid coordinate. `column` grows to the East and `row` grows to the
/// South: row 0 is the northernmost (top) row. A `Point` carries no bound of
/// its own; the grid checks bounds at lookup time.
#[derive(Clone, Copy, Debug, Eq, Hash, PartialEq, Structural)]
pub struct Point {
    pub column: u32,
    pub row: u32,
}

/// One of the four compass values describing the relative orientation of two
/// axis-aligned positions.
#[derive(Clone, Copy, Debug, Eq, Hash, PartialEq, Structural)]
pub enum Direction {
    North,
    South,
    East,
    West,
}

/// The direction from `p1` to `p2`, defined exactly when the two positions
/// agree in one axis and differ in the other: East/West by column, North/South
/// by row. Only the sign of the difference matters, not its magnitude. An
/// equal or diagonal pair has no direction.
pub open spec fn dir_from(p1: Point, p2: Point) -> Option<Direction> {
    if p1.row == p2.row && p1.column < p2.column {
        Some(Direction::East)
    } else if p1.row == p2.row && p1.column > p2.column {
        Some(Direction::West)
    } else if p1.column == p2.column && p1.row > p2.row {
        Some(Direction::North)
    } else if p1.column == p2.column && p1.row < p2.row {
        Some(Direction::South)
    } else {
        None
    }
}

/// The compass opposite of a direction.
pub open spec fn opposite(d: Direction) -> Direction {
    match d {
        Direction::North => Direction::South,
        Direction::South => Direction::North,
        Direction::East => Direction::West,
        Direction::West => Direction::East,
    }
}

/// Whenever the direction from `p1` to `p2` is defined, the direction from
/// `p2` back to `p1` is defined as well, and is its compass opposite.
pub proof fn lemma_dir_from_opposite(p1: Point, p2: Point)
    requires
        dir_from(p1, p2) is Some,
    ensures
        dir_from(p2, p1) == Some(opposite(dir_from(p1, p2)->Some_0)),
{
}

/// The direction between two positions is undefined exactly on the pairs
/// that are equal or diagonal (both axes differing) — the fatal inputs of
/// `Point::calc_dir` — and defined on every other pair: distinct and
/// axis-aligned.
pub proof fn lemma_dir_from_undefined(p1: Point, p2: Point)
    ensures
        dir_from(p1, p2) is None <==> (p1 == p2 || (p1.column != p2.column && p1.row != p2.row)),
        dir_from(p1, p2) is Some <==> (p1 != p2 && (p1.column == p2.column || p1.row == p2.row)),
{
}

impl Point {
    pub fn new(column: u32, row: u32) -> (p: Point)
        ensures
            p == (Point { column, row }),
    {
        Point { column, row }
    }

    /// The direction from `p1` to `p2`. The two positions must be distinct
    /// and axis-aligned: calling this on an equal or diagonal pair is a
    /// caller error, excluded by the precondition.
    pub fn calc_dir(p1: Point, p2: Point) -> (d: Direction)
        requires
            dir_from(p1, p2) is Some,
        ensures
            Some(d) == dir_from(p1, p2),
    {
        if p1.row == p2.row && p1.column < p2.column {
            Direction::East
        } else if p1.row == p2.row && p1.column > p2.column {
            Direction::West
        } else if p1.row > p2.row {
            Direction::North
        } else {
            Direction::South
        }
    }
}

/// A grid node: its own position plus up to one neighboring position per
/// compass direction.
#[derive(Clone, Copy, Debug, Eq, PartialEq)]
pub struct Cell {
    pub loc: Point,
    pub north: Option<Point>,
    pub south: Option<Point>,
    pub east: Option<Point>,
    pub west: Option<Point>,
}

impl Cell {
    /// The neighbor recorded in direction `d`, if any.
    pub open spec fn spec_neighbor(self, d: Direction) -> Option<Point> {
        match d {
            Direction::North => self.north,
            Direction::South => self.south,
            Direction::East => self.east,
            Direction::West => self.west,
        }
    }

    /// `self` with the neighbor in direction `d` replaced by `p` and every
    /// other field unchanged.
    pub open spec fn with_neighbor(self, d: Direction, p: Point) -> Cell {
        match d {
            Direction::North => Cell { north: Some(p), ..self },
            Direction::South => Cell { south: Some(p), ..self },
            Direction::East => Cell { east: Some(p), ..self },
            Direction::West => Cell { west: Some(p), ..self },
        }
    }

    /// True when no neighbor is recorded in any direction.
    pub open spec fn unlinked(self) -> bool {
        self.north is None && self.south is None && self.east is None && self.west is None
    }

    /// A fresh cell at `loc` with no neighbors recorded.
    pub fn new(loc: Point) -> (c: Cell)
        ensures
            c.loc == loc,
            c.unlinked(),
    {
        Cell { loc, north: None, south: None, east: None, west: None }
    }

    /// The neighbor recorded in direction `d`, if any.
    pub fn neighbor(&self, d: Direction) -> (r: Option<Point>)
        ensures
            r == self.spec_neighbor(d),
    {
        match d {
            Direction::North => self.north,
            Direction::South => self.south,
            Direction::East => self.east,
            Direction::West => self.west,
        }
    }

    /// Record `p` as the neighbor in direction `d` (last write wins).
    pub fn set_neighbor(&mut self, d: Direction, p: Point)
        ensures
            *final(self) == old(self).with_neighbor(d, p),
    {
        match d {
            Direction::North => self.north = Some(p),
            Direction::South => self.south = Some(p),
            Direction::East => self.east = Some(p),
            Direction::West => self.west = Some(p),
        }
    }
}

} // verus!
