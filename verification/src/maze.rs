//! The maze grid: every cell for a fixed width and height, keyed by position,
//! with symmetric neighbor linking and the traversal views over the cells.

use vstd::prelude::*;

use crate::cell::Cell;
use crate::cell::Direction;
use crate::cell::Point;
use crate::cell::dir_from;
use crate::cell::opposite;
use crate::cell::lemma_dir_from_opposite;

verus! {

/// The grid of cells. The backing vector holds exactly one cell per position
/// with `column < col_count` and `row < row_count`, in column-major order
/// (the cells of one column are consecutive).
#[derive(Debug)]
pub struct Maze {
    pub row_count: u32,
    pub col_count: u32,
    pub cells: Vec<Cell>,
}

/// The cell stored for position `p` in a backing vector laid out with
/// `rc` rows per column: present at index `p.column * rc + p.row`, carrying
/// its own position, with no neighbors recorded yet.
spec fn seeded(cells: Seq<Cell>, rc: int, p: Point) -> bool {
    let i = p.column * rc + p.row;
    &&& 0 <= i < cells.len()
    &&& cells[i].loc == p
    &&& cells[i].unlinked()
}

/// Strict upper bound for column-major indices: a cell of an earlier column
/// sits strictly below any index at or past the start of a later column.
proof fn lemma_col_major_bound(c1: int, r1: int, c2: int, r2: int, rc: int)
    by (nonlinear_arith)
    requires
        0 <= c1 < c2,
        0 <= r1 < rc,
        0 <= r2,
    ensures
        c1 * rc + r1 < c2 * rc + r2,
{
}

/// A column-major index for `u32` coordinates fits in a `u64`.
proof fn lemma_index_fits(c: int, r: int, rc: int)
    by (nonlinear_arith)
    requires
        0 <= c < 0x1_0000_0000,
        0 <= r < 0x1_0000_0000,
        0 <= rc < 0x1_0000_0000,
    ensures
        0 <= c * rc + r < 0xffff_ffff_ffff_ffff,
{
}

/// How `add_neighbor` changes a grid: the direction `d1` from `p1` to `p2`
/// and its opposite `d2` are defined, `p2` is recorded as `p1`'s neighbor in
/// direction `d1` (if `p1` is in range), `p1` as `p2`'s neighbor in direction
/// `d2` (if `p2` is in range), and every other cell is untouched. A position
/// out of range is skipped silently: no cell changes for that side.
pub open spec fn add_neighbor_post(m0: Maze, m1: Maze, p1: Point, p2: Point) -> bool {
    let d1 = dir_from(p1, p2)->Some_0;
    let d2 = dir_from(p2, p1)->Some_0;
    &&& m1.col_count == m0.col_count
    &&& m1.row_count == m0.row_count
    &&& forall|p: Point|
        m0.in_range(p) ==> #[trigger] m1.spec_cell(p) == (if p == p1 {
            m0.spec_cell(p1).with_neighbor(d1, p2)
        } else if p == p2 {
            m0.spec_cell(p2).with_neighbor(d2, p1)
        } else {
            m0.spec_cell(p)
        })
}

impl Maze {
    /// A position lies within the populated bounds of the grid.
    pub open spec fn in_range(self, p: Point) -> bool {
        p.column < self.col_count && p.row < self.row_count
    }

    /// Index of position `p` in the column-major backing vector.
    pub open spec fn idx_of(self, p: Point) -> int {
        p.column * self.row_count + p.row
    }

    /// The cell stored for position `p` (meaningful when `p` is in range).
    pub open spec fn spec_cell(self, p: Point) -> Cell {
        self.cells@[self.idx_of(p)]
    }

    /// Well-formed: one cell per in-range position, each stored at its
    /// column-major index and carrying its own position as `loc`.
    pub open spec fn wf(self) -> bool {
        &&& self.cells@.len() == self.col_count * self.row_count
        &&& forall|p: Point|
            #[trigger] self.in_range(p) ==> 0 <= self.idx_of(p) < self.cells@.len()
                && self.spec_cell(p).loc == p
    }

    /// The grid as a map from each in-range position to its cell.
    pub open spec fn view(self) -> Map<Point, Cell> {
        Map::new(|p: Point| self.in_range(p), |p: Point| self.spec_cell(p))
    }

    /// Build the fully populated grid: a fresh, unlinked cell for every
    /// position with `column < col_count` and `row < row_count`. Zero in
    /// either dimension yields an empty grid.
    pub fn new(col_count: u32, row_count: u32) -> (m: Maze)
        ensures
            m.wf(),
            m.col_count == col_count,
            m.row_count == row_count,
            forall|p: Point|
                m.in_range(p) ==> (#[trigger] m.spec_cell(p)).loc == p && m.spec_cell(p).unlinked(),
    {
        let mut cells: Vec<Cell> = Vec::new();
        let mut column: u32 = 0;
        while column < col_count
            invariant
                column <= col_count,
                cells@.len() == column * row_count,
                forall|p: Point|
                    p.column < column && p.row < row_count ==> #[trigger] seeded(
                        cells@,
                        row_count as int,
                        p,
                    ),
            decreases col_count - column,
        {
            let mut row: u32 = 0;
            while row < row_count
                invariant
                    column < col_count,
                    row <= row_count,
                    cells@.len() == column * row_count + row,
                    forall|p: Point|
                        p.column < column && p.row < row_count ==> #[trigger] seeded(
                            cells@,
                            row_count as int,
                            p,
                        ),
                    forall|p: Point|
                        p.column == column && p.row < row ==> #[trigger] seeded(
                            cells@,
                            row_count as int,
                            p,
                        ),
                decreases row_count - row,
            {
                let p = Point::new(column, row);
                let c = Cell::new(p);
                let ghost prev = cells@;
                cells.push(c);
                proof {
                    let rc = row_count as int;
                    assert forall|q: Point| q.column < column && q.row < row_count implies #[trigger] seeded(
                        cells@,
                        rc,
                        q,
                    ) by {
                        assert(seeded(prev, rc, q));
                        assert(cells@[q.column * rc + q.row] == prev[q.column * rc + q.row]);
                    };
                    assert forall|q: Point| q.column == column && q.row < row + 1 implies #[trigger] seeded(
                        cells@,
                        rc,
                        q,
                    ) by {
                        if q.row < row {
                            assert(seeded(prev, rc, q));
                            assert(cells@[q.column * rc + q.row] == prev[q.column * rc + q.row]);
                        } else {
                            assert(q == p);
                            assert(q.column * rc + q.row == prev.len());
                            assert(cells@[q.column * rc + q.row] == c);
                        }
                    };
                }
                row = row + 1;
            }
            proof {
                assert(cells@.len() == (column + 1) * row_count) by (nonlinear_arith)
                    requires
                        cells@.len() == column * row_count + row_count,
                ;
            }
            column = column + 1;
        }
        let m = Maze { row_count, col_count, cells };
        proof {
            assert forall|p: Point| #[trigger] m.in_range(p) implies 0 <= m.idx_of(p)
                < m.cells@.len() && m.spec_cell(p).loc == p && m.spec_cell(p).unlinked() by {
                assert(seeded(m.cells@, m.row_count as int, p));
            };
            assert(m.wf());
        }
        m
    }

    /// The direction from `p1` to `p2`; see `Point::calc_dir`.
    pub fn calc_dir(p1: Point, p2: Point) -> (d: Direction)
        requires
            dir_from(p1, p2) is Some,
        ensures
            Some(d) == dir_from(p1, p2),
    {
        Point::calc_dir(p1, p2)
    }

    /// The backing-vector index of an in-range position, as a `usize`.
    fn index_of(&self, p: Point) -> (i: usize)
        requires
            self.wf(),
            self.in_range(p),
        ensures
            i == self.idx_of(p),
            i < self.cells@.len(),
    {
        let n = self.cells.len();
        proof {
            lemma_index_fits(p.column as int, p.row as int, self.row_count as int);
            assert(self.in_range(p));
            assert(self.idx_of(p) < self.cells@.len());
        }
        let wide: u64 = (p.column as u64) * (self.row_count as u64) + (p.row as u64);
        proof {
            assert(wide < n as u64);
        }
        wide as usize
    }

    /// The cell at position `p`, or `None` when `p` is out of the grid's
    /// bounds: an out-of-bounds query signals not-found rather than failing.
    pub fn get_cell(&self, p: Point) -> (r: Option<Cell>)
        requires
            self.wf(),
        ensures
            r == (if self.in_range(p) {
                Some(self.spec_cell(p))
            } else {
                None::<Cell>
            }),
    {
        if p.column < self.col_count && p.row < self.row_count {
            let i = self.index_of(p);
            Some(self.cells[i])
        } else {
            None
        }
    }

    /// A mutable borrow of the cell at in-range position `p`, for in-place
    /// neighbor edits outside the standard linking operation.
    pub fn cell_mut(&mut self, p: Point) -> (c: &mut Cell)
        requires
            old(self).wf(),
            old(self).in_range(p),
        ensures
            *c == old(self).spec_cell(p),
            final(self).col_count == old(self).col_count,
            final(self).row_count == old(self).row_count,
            final(self).cells@ == old(self).cells@.update(old(self).idx_of(p), *final(c)),
    {
        let i = self.index_of(p);
        &mut self.cells[i]
    }

    /// Record `q` as the neighbor of `p` in direction `d`, when `p` is in
    /// range; an out-of-range `p` changes nothing.
    fn link_side(&mut self, p: Point, d: Direction, q: Point)
        requires
            old(self).wf(),
        ensures
            final(self).wf(),
            final(self).col_count == old(self).col_count,
            final(self).row_count == old(self).row_count,
            forall|r: Point|
                old(self).in_range(r) ==> #[trigger] final(self).spec_cell(r) == (if r == p {
                    old(self).spec_cell(p).with_neighbor(d, q)
                } else {
                    old(self).spec_cell(r)
                }),
    {
        if p.column < self.col_count && p.row < self.row_count {
            let c = self.cell_mut(p);
            c.set_neighbor(d, q);
            proof {
                let m0 = *old(self);
                let i = m0.idx_of(p);
                assert forall|r: Point| m0.in_range(r) implies #[trigger] self.spec_cell(r) == (
                if r == p {
                    m0.spec_cell(p).with_neighbor(d, q)
                } else {
                    m0.spec_cell(r)
                }) by {
                    if r != p && m0.idx_of(r) == i {
                        assert(m0.spec_cell(r).loc == r);
                        assert(m0.spec_cell(p).loc == p);
                        assert(false);
                    }
                };
                assert forall|r: Point| #[trigger] self.in_range(r) implies 0 <= self.idx_of(r)
                    < self.cells@.len() && self.spec_cell(r).loc == r by {
                    assert(m0.in_range(r));
                };
            }
        }
    }

    /// Link `p1` and `p2`, which must be axis-aligned and distinct: record
    /// `p2` as `p1`'s neighbor in the direction from `p1` to `p2`, and
    /// symmetrically for `p2`. A side whose position is out of the grid's
    /// bounds is skipped silently, with no error raised.
    pub fn add_neighbor(&mut self, p1: Point, p2: Point)
        requires
            old(self).wf(),
            dir_from(p1, p2) is Some,
        ensures
            final(self).wf(),
            add_neighbor_post(*old(self), *final(self), p1, p2),
    {
        proof {
            lemma_dir_from_opposite(p1, p2);
        }
        let d1 = Point::calc_dir(p1, p2);
        let d2 = Point::calc_dir(p2, p1);
        self.link_side(p1, d1, p2);
        self.link_side(p2, d2, p1);
    }

    /// The cell reached from `p1` by following its recorded neighbor in the
    /// given direction: `None` when `p1` is out of bounds, when no neighbor
    /// is recorded in that direction, or when the recorded position is
    /// (erroneously) absent from the grid.
    pub fn get_neighbor(&self, p1: Point, dir: Direction) -> (r: Option<Cell>)
        requires
            self.wf(),
        ensures
            r == self.spec_get_neighbor(p1, dir),
    {
        match self.get_cell(p1) {
            None => None,
            Some(c) => match c.neighbor(dir) {
                None => None,
                Some(q) => self.get_cell(q),
            },
        }
    }

    /// What `get_neighbor` returns: resolve `p`'s recorded neighbor in
    /// direction `d`, then look that position up in the grid.
    pub open spec fn spec_get_neighbor(self, p: Point, d: Direction) -> Option<Cell> {
        if self.in_range(p) {
            match self.spec_cell(p).spec_neighbor(d) {
                Some(q) => if self.in_range(q) {
                    Some(self.spec_cell(q))
                } else {
                    None
                },
                None => None,
            }
        } else {
            None
        }
    }

    /// The two dimensions agree.
    pub open spec fn square(self) -> bool {
        self.col_count == self.row_count
    }

    /// The grids the traversal views can walk. The views read a counter into
    /// the first coordinate of the positions they visit, so on a grid with
    /// two different positive dimensions they would address positions that
    /// do not exist; they accept a square grid, or an empty one (a zero
    /// dimension), over which they visit no position at all.
    pub open spec fn traversable(self) -> bool {
        self.square() || self.col_count == 0 || self.row_count == 0
    }

    /// What the row-by-row view emits for counter value `i`: the cells it
    /// addresses as `Point::new(i, j)` for `j` in `0..col_count`, the counter
    /// read into the first coordinate.
    pub open spec fn view_row(self, i: int) -> Seq<Cell> {
        Seq::new(
            self.col_count as nat,
            |j: int| self.spec_cell(Point { column: i as u32, row: j as u32 }),
        )
    }

    /// What the column-by-column view emits for counter value `i`: the cells
    /// it addresses as `Point::new(j, i)` for `j` in `0..row_count`, the
    /// counter read into the second coordinate.
    pub open spec fn view_col(self, i: int) -> Seq<Cell> {
        Seq::new(
            self.row_count as nat,
            |j: int| self.spec_cell(Point { column: j as u32, row: i as u32 }),
        )
    }

    /// The position the full enumeration view visits at counter value `k`:
    /// `Point::new(k / col_count, k % col_count)` — the second coordinate
    /// varies fastest.
    pub open spec fn enum_point(self, k: int) -> Point {
        Point {
            column: (k / self.col_count as int) as u32,
            row: (k % self.col_count as int) as u32,
        }
    }

    /// What the full enumeration view emits over its whole run: one cell per
    /// counter value `k` in `0..col_count * row_count`, at `enum_point(k)`.
    pub open spec fn cell_seq(self) -> Seq<Cell> {
        Seq::new(
            (self.col_count * self.row_count) as nat,
            |k: int| self.spec_cell(self.enum_point(k)),
        )
    }

    /// A lazy view of the rows, restartable by calling this again.
    pub fn each_row_iter<'a>(&'a self) -> (it: EachRow<'a>)
        ensures
            it.maze == self,
            it.ctr == 0,
    {
        EachRow::new(self)
    }

    /// A lazy view of the columns, restartable by calling this again.
    pub fn each_col_iter<'a>(&'a self) -> (it: EachCol<'a>)
        ensures
            it.maze == self,
            it.ctr == 0,
    {
        EachCol::new(self)
    }

    /// A lazy view of every cell, restartable by calling this again.
    pub fn each_cell_iter<'a>(&'a self) -> (it: EachCell<'a>)
        ensures
            it.maze == self,
            it.col_ctr == 0,
            it.row_ctr == 0,
    {
        EachCell::new(self)
    }

    /// A lazy view drawing `col_count * row_count` cells at independently
    /// uniform random positions, with replacement: duplicates are possible
    /// and some cells may never appear. Both dimensions must be positive and
    /// the cell count must fit the counter.
    pub fn rand_cell_iter<'a>(&'a self) -> (it: RandCell<'a>)
        requires
            self.col_count > 0,
            self.row_count > 0,
        ensures
            it.maze == self,
            it.seen_count == 0,
    {
        RandCell::new(self)
    }
}

/// Row-by-row traversal view: each step yields the cells it addresses as
/// `Point::new(ctr, j)` for `j` in `0..col_count`, for `ctr` from 0 up to
/// `row_count`.
pub struct EachRow<'a> {
    pub maze: &'a Maze,
    pub ctr: u32,
}

impl<'a> EachRow<'a> {
    fn new(maze: &'a Maze) -> (it: EachRow<'a>)
        ensures
            it.maze == maze,
            it.ctr == 0,
    {
        EachRow { ctr: 0, maze }
    }

    fn inc_ctr(&mut self)
        requires
            old(self).ctr < u32::MAX,
        ensures
            final(self).maze == old(self).maze,
            final(self).ctr == old(self).ctr + 1,
    {
        self.ctr += 1;
    }

    /// The next row of cells, or `None` once `row_count` rows were yielded.
    pub fn next(&mut self) -> (r: Option<Vec<Cell>>)
        requires
            old(self).maze.wf(),
            old(self).maze.traversable(),
        ensures
            final(self).maze == old(self).maze,
            old(self).ctr >= old(self).maze.row_count ==> r is None && final(self).ctr == old(
                self,
            ).ctr,
            old(self).ctr < old(self).maze.row_count ==> final(self).ctr == old(self).ctr + 1
                && r is Some && r->Some_0@ == old(self).maze.view_row(old(self).ctr as int),
    {
        if self.ctr >= self.maze.row_count {
            None
        } else {
            let mut v: Vec<Cell> = Vec::new();
            let mut col_idx: u32 = 0;
            while col_idx < self.maze.col_count
                invariant
                    self.maze.wf(),
                    self.maze.traversable(),
                    self.ctr < self.maze.row_count,
                    col_idx <= self.maze.col_count,
                    v@.len() == col_idx,
                    forall|j: int|
                        0 <= j < col_idx ==> v@[j] == self.maze.spec_cell(
                            Point { column: self.ctr, row: j as u32 },
                        ),
                decreases self.maze.col_count - col_idx,
            {
                let p = Point::new(self.ctr, col_idx);
                let i = self.maze.index_of(p);
                v.push(self.maze.cells[i]);
                col_idx = col_idx + 1;
            }
            proof {
                assert(v@ =~= self.maze.view_row(self.ctr as int));
            }
            self.inc_ctr();
            Some(v)
        }
    }
}

/// Column-by-column traversal view: each step yields the cells it addresses
/// as `Point::new(j, ctr)` for `j` in `0..row_count`, for `ctr` from 0 up to
/// `col_count`.
pub struct EachCol<'a> {
    pub maze: &'a Maze,
    pub ctr: u32,
}

impl<'a> EachCol<'a> {
    fn new(maze: &'a Maze) -> (it: EachCol<'a>)
        ensures
            it.maze == maze,
            it.ctr == 0,
    {
        EachCol { ctr: 0, maze }
    }

    fn inc_ctr(&mut self)
        requires
            old(self).ctr < u32::MAX,
        ensures
            final(self).maze == old(self).maze,
            final(self).ctr == old(self).ctr + 1,
    {
        self.ctr += 1;
    }

    /// The next column of cells, or `None` once `col_count` columns were
    /// yielded.
    pub fn next(&mut self) -> (r: Option<Vec<Cell>>)
        requires
            old(self).maze.wf(),
            old(self).maze.traversable(),
        ensures
            final(self).maze == old(self).maze,
            old(self).ctr >= old(self).maze.col_count ==> r is None && final(self).ctr == old(
                self,
            ).ctr,
            old(self).ctr < old(self).maze.col_count ==> final(self).ctr == old(self).ctr + 1
                && r is Some && r->Some_0@ == old(self).maze.view_col(old(self).ctr as int),
    {
        if self.ctr >= self.maze.col_count {
            None
        } else {
            let mut v: Vec<Cell> = Vec::new();
            let mut row_idx: u32 = 0;
            while row_idx < self.maze.row_count
                invariant
                    self.maze.wf(),
                    self.maze.traversable(),
                    self.ctr < self.maze.col_count,
                    row_idx <= self.maze.row_count,
                    v@.len() == row_idx,
                    forall|j: int|
                        0 <= j < row_idx ==> v@[j] == self.maze.spec_cell(
                            Point { column: j as u32, row: self.ctr },
                        ),
                decreases self.maze.row_count - row_idx,
            {
                let p = Point::new(row_idx, self.ctr);
                let i = self.maze.index_of(p);
                v.push(self.maze.cells[i]);
                row_idx = row_idx + 1;
            }
            proof {
                assert(v@ =~= self.maze.view_col(self.ctr as int));
            }
            self.inc_ctr();
            Some(v)
        }
    }
}

/// Full enumeration view: yields every cell once, the second coordinate of
/// the visited position varying fastest.
pub struct EachCell<'a> {
    pub maze: &'a Maze,
    pub col_ctr: u32,
    pub row_ctr: u32,
}

impl<'a> EachCell<'a> {
    /// The counters a run of the view can reach: within a pass `col_ctr`
    /// stays below `col_count` and `row_ctr` below `row_count`; after the
    /// last cell the view rests at `col_ctr == 0`, `row_ctr == row_count`.
    pub open spec fn wf(self) -> bool {
        if self.col_ctr == 0 {
            self.row_ctr <= self.maze.row_count
        } else {
            self.col_ctr < self.maze.col_count && self.row_ctr < self.maze.row_count
        }
    }

    /// How many cells were already yielded.
    pub open spec fn pos(self) -> int {
        self.row_ctr * self.maze.col_count + self.col_ctr
    }

    /// Nothing more to yield: the counters rest past the last cell, or the
    /// grid has no columns at all and so enumerates nothing.
    pub open spec fn done(self) -> bool {
        (self.col_ctr == 0 && self.row_ctr >= self.maze.row_count) || self.maze.col_count == 0
    }

    fn new(maze: &'a Maze) -> (it: EachCell<'a>)
        ensures
            it.maze == maze,
            it.col_ctr == 0,
            it.row_ctr == 0,
            it.wf(),
    {
        EachCell { col_ctr: 0, row_ctr: 0, maze }
    }

    fn inc_ctrs(&mut self)
        requires
            old(self).col_ctr < old(self).maze.col_count,
            old(self).row_ctr < old(self).maze.row_count,
        ensures
            final(self).maze == old(self).maze,
            old(self).col_ctr + 1 >= old(self).maze.col_count ==> final(self).col_ctr == 0
                && final(self).row_ctr == old(self).row_ctr + 1,
            old(self).col_ctr + 1 < old(self).maze.col_count ==> final(self).col_ctr == old(
                self,
            ).col_ctr + 1 && final(self).row_ctr == old(self).row_ctr,
    {
        let new_col = self.col_ctr + 1;
        if new_col >= self.maze.col_count {
            self.col_ctr = 0;
            self.row_ctr = self.row_ctr + 1;
        } else {
            self.col_ctr = new_col;
        }
    }

    /// The next cell of the enumeration: the `pos()`-th entry of the grid's
    /// `cell_seq`, or `None` once every cell was yielded. An empty grid
    /// enumerates nothing at all.
    pub fn next(&mut self) -> (r: Option<Cell>)
        requires
            old(self).maze.wf(),
            old(self).maze.traversable(),
            old(self).wf(),
        ensures
            final(self).maze == old(self).maze,
            final(self).wf(),
            old(self).done() ==> r is None && *final(self) == *old(self),
            !old(self).done() ==> r == Some(old(self).maze.cell_seq()[old(self).pos()])
                && final(self).pos() == old(self).pos() + 1,
    {
        if self.maze.col_count == 0 || (self.col_ctr == 0 && self.row_ctr
            >= self.maze.row_count) {
            None
        } else {
            let p = Point::new(self.row_ctr, self.col_ctr);
            proof {
                assert(self.maze.square());
                let cc = self.maze.col_count as int;
                lemma_col_major_bound(
                    self.row_ctr as int,
                    self.col_ctr as int,
                    self.maze.row_count as int,
                    0,
                    cc,
                );
                vstd::arithmetic::div_mod::lemma_fundamental_div_mod_converse(
                    self.pos(),
                    cc,
                    self.row_ctr as int,
                    self.col_ctr as int,
                );
            }
            let i = self.maze.index_of(p);
            let c = self.maze.cells[i];
            proof {
                let m = *self.maze;
                assert(m.cell_seq()[self.pos()] == m.spec_cell(p));
            }
            let ghost oldpos = self.pos();
            let ghost oc = self.col_ctr as int;
            let ghost orow = self.row_ctr as int;
            self.inc_ctrs();
            proof {
                let cc = self.maze.col_count as int;
                assert(self.pos() == oldpos + 1) by (nonlinear_arith)
                    requires
                        self.pos() == self.row_ctr * cc + self.col_ctr,
                        oldpos == orow * cc + oc,
                        oc < cc,
                        (oc + 1 >= cc ==> self.col_ctr == 0 && self.row_ctr == orow + 1),
                        (oc + 1 < cc ==> self.col_ctr == oc + 1 && self.row_ctr == orow),
                ;
            }
            Some(c)
        }
    }
}

/// Law: linking two orthogonally adjacent in-range positions is symmetric.
/// Afterward, following the direction from either position through
/// `get_neighbor` reaches the other position's cell.
pub proof fn lemma_add_neighbor_symmetric(m0: Maze, m1: Maze, p1: Point, p2: Point)
    requires
        m0.wf(),
        m1.wf(),
        dir_from(p1, p2) is Some,
        m0.in_range(p1),
        m0.in_range(p2),
        add_neighbor_post(m0, m1, p1, p2),
    ensures
        m1.spec_get_neighbor(p1, dir_from(p1, p2)->Some_0) == Some(m1.spec_cell(p2)),
        m1.spec_get_neighbor(p2, dir_from(p2, p1)->Some_0) == Some(m1.spec_cell(p1)),
{
    lemma_dir_from_opposite(p1, p2);
    let d1 = dir_from(p1, p2)->Some_0;
    let d2 = dir_from(p2, p1)->Some_0;
    assert(m1.spec_cell(p1) == m0.spec_cell(p1).with_neighbor(d1, p2));
    assert(m1.spec_cell(p2) == m0.spec_cell(p2).with_neighbor(d2, p1));
}

/// Law: linking the same pair twice is idempotent. A second call with the
/// same arguments leaves every cell exactly as the first call left it.
pub proof fn lemma_add_neighbor_idempotent(m0: Maze, m1: Maze, m2: Maze, p1: Point, p2: Point)
    requires
        m0.wf(),
        m1.wf(),
        m2.wf(),
        dir_from(p1, p2) is Some,
        add_neighbor_post(m0, m1, p1, p2),
        add_neighbor_post(m1, m2, p1, p2),
    ensures
        m2.col_count == m1.col_count,
        m2.row_count == m1.row_count,
        m2.view() == m1.view(),
{
    assert forall|p: Point| m1.in_range(p) implies #[trigger] m2.spec_cell(p) == m1.spec_cell(
        p,
    ) by {
        assert(m0.in_range(p));
    };
    assert(m2.view() =~~= m1.view());
}

/// Law: a link whose far endpoint lies outside the grid performs no update
/// for that side and raises no error — every in-range cell other than the
/// near endpoint keeps its value.
pub proof fn lemma_add_neighbor_out_of_bounds(m0: Maze, m1: Maze, p1: Point, p2: Point)
    requires
        m0.wf(),
        dir_from(p1, p2) is Some,
        add_neighbor_post(m0, m1, p1, p2),
        !m0.in_range(p2),
    ensures
        forall|p: Point|
            m0.in_range(p) && p != p1 ==> #[trigger] m1.spec_cell(p) == m0.spec_cell(p),
{
}

/// For a counter value within a traversable grid's cell count, the enumeration's
/// position is in range, the entry of `cell_seq` is the grid's own cell
/// there, and the counter can be read back from the position.
proof fn lemma_enum_point(m: Maze, k: int)
    requires
        m.wf(),
        m.traversable(),
        0 <= k < m.col_count * m.row_count,
    ensures
        m.in_range(m.enum_point(k)),
        m.cell_seq()[k] == m.spec_cell(m.enum_point(k)),
        m.cell_seq()[k].loc == m.enum_point(k),
        m.enum_point(k).column * m.col_count + m.enum_point(k).row == k,
        0 <= k / (m.col_count as int) < m.row_count,
        0 <= k % (m.col_count as int) < m.col_count,
{
    let cc = m.col_count as int;
    let rc = m.row_count as int;
    assert(cc > 0) by {
        if cc == 0 {
            assert(cc * rc == 0) by (nonlinear_arith)
                requires
                    cc == 0,
            ;
        }
    };
    assert(rc > 0) by {
        if rc == 0 {
            assert(cc * rc == 0) by (nonlinear_arith)
                requires
                    rc == 0,
            ;
        }
    };
    assert(m.square());
    vstd::arithmetic::div_mod::lemma_mod_bound(k, cc);
    vstd::arithmetic::div_mod::lemma_fundamental_div_mod(k, cc);
    let q = k / cc;
    let r = k % cc;
    assert(0 <= q < rc) by (nonlinear_arith)
        requires
            k == cc * q + r,
            0 <= r < cc,
            0 <= k,
            k < cc * rc,
            0 < cc,
    ;
    assert((q as u32) as int == q);
    assert((r as u32) as int == r);
    assert(m.enum_point(k).column == q as u32);
    assert(m.enum_point(k).row == r as u32);
    assert(q * cc + r == k) by (nonlinear_arith)
        requires
            k == cc * q + r,
    ;
    assert(m.in_range(m.enum_point(k)));
}

/// Law: over a traversable grid, the full enumeration is exhaustive and
/// ordered.
/// It holds exactly `col_count * row_count` cells; the `k`-th is the grid's
/// own cell at the position read off from `k` (second coordinate varying
/// fastest); no position repeats; and every in-range position appears.
pub proof fn lemma_cell_seq_complete(m: Maze)
    requires
        m.wf(),
        m.traversable(),
    ensures
        m.cell_seq().len() == m.col_count * m.row_count,
        forall|k: int|
            0 <= k < m.cell_seq().len() ==> m.in_range((#[trigger] m.cell_seq()[k]).loc)
                && m.cell_seq()[k] == m.spec_cell(m.cell_seq()[k].loc) && m.cell_seq()[k].loc
                == m.enum_point(k),
        forall|k1: int, k2: int|
            0 <= k1 < m.cell_seq().len() && 0 <= k2 < m.cell_seq().len() && k1 != k2 ==> (
            #[trigger] m.cell_seq()[k1]).loc != (#[trigger] m.cell_seq()[k2]).loc,
        forall|p: Point|
            #[trigger] m.in_range(p) ==> exists|k: int|
                0 <= k < m.cell_seq().len() && (#[trigger] m.cell_seq()[k]).loc == p,
{
    let cc = m.col_count as int;
    let rc = m.row_count as int;
    assert forall|k: int| 0 <= k < m.cell_seq().len() implies m.in_range(
        (#[trigger] m.cell_seq()[k]).loc,
    ) && m.cell_seq()[k] == m.spec_cell(m.cell_seq()[k].loc) && m.cell_seq()[k].loc
        == m.enum_point(k) by {
        lemma_enum_point(m, k);
    };
    assert forall|k1: int, k2: int|
        0 <= k1 < m.cell_seq().len() && 0 <= k2 < m.cell_seq().len() && k1 != k2 implies (
    #[trigger] m.cell_seq()[k1]).loc != (#[trigger] m.cell_seq()[k2]).loc by {
        lemma_enum_point(m, k1);
        lemma_enum_point(m, k2);
    };
    assert forall|p: Point| #[trigger] m.in_range(p) implies exists|k: int|
        0 <= k < m.cell_seq().len() && (#[trigger] m.cell_seq()[k]).loc == p by {
        let k = p.column * cc + p.row;
        lemma_col_major_bound(p.column as int, p.row as int, cc, 0, cc);
        lemma_enum_point(m, k);
        vstd::arithmetic::div_mod::lemma_fundamental_div_mod_converse(
            k,
            cc,
            p.column as int,
            p.row as int,
        );
        assert(m.cell_seq()[k].loc == p);
    };
}

/// Law: the full enumeration is the row-by-row view flattened — entry `k` of
/// `cell_seq` is entry `k % col_count` of the row emitted for counter value
/// `k / col_count`.
pub proof fn lemma_cell_seq_flattens_rows(m: Maze, k: int)
    requires
        m.wf(),
        m.traversable(),
        0 <= k < m.col_count * m.row_count,
    ensures
        0 <= k / (m.col_count as int) < m.row_count,
        0 <= k % (m.col_count as int) < m.col_count,
        m.cell_seq()[k] == m.view_row(k / (m.col_count as int))[k % (m.col_count as int)],
{
    lemma_enum_point(m, k);
}

/// Relies on rand::random_range: a value drawn uniformly at random from the
/// given range by the thread-local generator; the range must be non-empty,
/// so the result lies below `n`.
#[verifier::external_body]
fn rand_below(n: u32) -> (r: u32)
    requires
        n > 0,
    ensures
        r < n,
{
    rand::random_range(0..n)
}

/// Random-sample traversal view: yields exactly `col_count * row_count`
/// cells, each at an independently uniform random in-range position, with
/// replacement — duplicates are possible and some cells may never appear.
pub struct RandCell<'a> {
    pub maze: &'a Maze,
    pub seen_count: u32,
}

impl<'a> RandCell<'a> {
    pub fn new(maze: &'a Maze) -> (it: RandCell<'a>)
        requires
            maze.col_count > 0,
            maze.row_count > 0,
        ensures
            it.maze == maze,
            it.seen_count == 0,
    {
        RandCell { maze, seen_count: 0 }
    }

    /// An independently uniform random in-range position.
    fn rand_point(&self) -> (p: Point)
        requires
            self.maze.col_count > 0,
            self.maze.row_count > 0,
        ensures
            self.maze.in_range(p),
    {
        Point::new(rand_below(self.maze.col_count), rand_below(self.maze.row_count))
    }

    /// One more random cell, or `None` once `col_count * row_count` cells
    /// were yielded. Whatever the random draw, the cell returned is one of
    /// the grid's own, at an in-range position.
    pub fn next(&mut self) -> (r: Option<Cell>)
        requires
            old(self).maze.wf(),
            old(self).maze.col_count > 0,
            old(self).maze.row_count > 0,
            old(self).maze.col_count * old(self).maze.row_count <= u32::MAX,
        ensures
            rand_step(*old(self), *final(self), r),
            r is Some ==> old(self).maze.in_range(r->Some_0.loc) && r->Some_0 == old(
                self,
            ).maze.spec_cell(r->Some_0.loc),
    {
        proof {
            assert(self.maze.row_count * self.maze.col_count <= u32::MAX);
        }
        let total = self.maze.row_count * self.maze.col_count;
        if self.seen_count < total {
            let p = self.rand_point();
            let i = self.maze.index_of(p);
            let c = self.maze.cells[i];
            self.seen_count = self.seen_count + 1;
            Some(c)
        } else {
            None
        }
    }
}

/// One call of `RandCell::next`, as its contract constrains the states: the
/// grid reference is kept, and the call yields a cell — stepping the count
/// by one — exactly while fewer than `col_count * row_count` cells were
/// yielded, and `None` ever after, the count then unchanged.
pub open spec fn rand_step<'a>(pre: RandCell<'a>, post: RandCell<'a>, r: Option<Cell>) -> bool {
    &&& post.maze == pre.maze
    &&& (pre.seen_count < pre.maze.col_count * pre.maze.row_count ==> post.seen_count
        == pre.seen_count + 1 && r is Some)
    &&& (pre.seen_count >= pre.maze.col_count * pre.maze.row_count ==> post.seen_count
        == pre.seen_count && r is None)
}

/// Along a run of the random view — states chained by `rand_step`, starting
/// fresh — the grid stays the same and the count of yielded cells after `j`
/// calls is `j`, capped at the grid's cell count.
proof fn lemma_rand_run_seen<'a>(states: Seq<RandCell<'a>>, results: Seq<Option<Cell>>, j: int)
    requires
        states.len() == results.len() + 1,
        states[0].seen_count == 0,
        forall|i: int|
            0 <= i < results.len() ==> #[trigger] rand_step(states[i], states[i + 1], results[i]),
        0 <= j < states.len(),
    ensures
        states[j].maze == states[0].maze,
        j <= states[0].maze.col_count * states[0].maze.row_count ==> states[j].seen_count == j,
        j > states[0].maze.col_count * states[0].maze.row_count ==> states[j].seen_count
            == states[0].maze.col_count * states[0].maze.row_count,
    decreases j,
{
    if j > 0 {
        lemma_rand_run_seen(states, results, j - 1);
        let i = j - 1;
        assert(rand_step(states[i], states[i + 1], results[i]));
        assert(states[i + 1] == states[j]);
    }
}

/// Law: the random-sample view yields exactly `col_count * row_count` items.
/// In any run from a fresh view — states chained by `rand_step`, which is
/// what `next`'s contract establishes call by call — exactly the first
/// `col_count * row_count` calls yield a cell, and every later call yields
/// `None`.
pub proof fn lemma_rand_cell_count<'a>(states: Seq<RandCell<'a>>, results: Seq<Option<Cell>>)
    requires
        states.len() == results.len() + 1,
        states[0].seen_count == 0,
        forall|i: int|
            0 <= i < results.len() ==> #[trigger] rand_step(states[i], states[i + 1], results[i]),
    ensures
        forall|i: int|
            0 <= i < results.len() ==> ((#[trigger] results[i]) is Some <==> i < states[0].maze.col_count
                * states[0].maze.row_count),
{
    assert forall|i: int| 0 <= i < results.len() implies ((#[trigger] results[i]) is Some <==> i
        < states[0].maze.col_count * states[0].maze.row_count) by {
        lemma_rand_run_seen(states, results, i);
        assert(rand_step(states[i], states[i + 1], results[i]));
    };
}

} // verus!
