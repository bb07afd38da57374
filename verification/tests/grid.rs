use mazes::Direction;
use mazes::Maze;
use mazes::Point;

#[test]
fn cell_calc_dir() {
    let center = Point { column: 1, row: 1 };
    let n = Point { column: 1, row: 0 };
    let s = Point { column: 1, row: 2 };
    let e = Point { column: 2, row: 1 };
    let w = Point { column: 0, row: 1 };
    assert_eq!(Direction::North, Point::calc_dir(center, n));
    assert_eq!(Direction::South, Point::calc_dir(center, s));
    assert_eq!(Direction::East, Point::calc_dir(center, e));
    assert_eq!(Direction::West, Point::calc_dir(center, w));
}

#[test]
fn lib_calc_dir() {
    let center = Point { column: 1, row: 1 };
    let n = Point { column: 1, row: 0 };
    let s = Point { column: 1, row: 2 };
    let e = Point { column: 2, row: 1 };
    let w = Point { column: 0, row: 1 };
    assert_eq!(Direction::North, Maze::calc_dir(center, n));
    assert_eq!(Direction::South, Maze::calc_dir(center, s));
    assert_eq!(Direction::East, Maze::calc_dir(center, e));
    assert_eq!(Direction::West, Maze::calc_dir(center, w));
}

#[test]
fn calc_dir_far_apart() {
    let p1 = Point::new(0, 5);
    let p2 = Point::new(3, 5);
    assert_eq!(Direction::East, Point::calc_dir(p1, p2));
    assert_eq!(Direction::West, Point::calc_dir(p2, p1));
    let p3 = Point::new(7, 9);
    let p4 = Point::new(7, 2);
    assert_eq!(Direction::North, Point::calc_dir(p3, p4));
    assert_eq!(Direction::South, Point::calc_dir(p4, p3));
}

#[test]
fn lib_add_neighbor() {
    let mut maze = Maze::new(2, 2);
    let p1 = Point::new(0, 0);
    let p2 = Point::new(1, 0);
    maze.add_neighbor(p1, p2);
    let c1 = maze.get_cell(p1).unwrap();
    let c2 = maze.get_cell(p2).unwrap();
    assert_eq!(p2, c1.neighbor(Direction::East).expect("p2 not found"));
    assert_eq!(p1, c2.neighbor(Direction::West).expect("p1 not found"));
}

#[test]
fn maze_add_neighbor() {
    let mut maze = Maze::new(2, 2);
    let p1 = Point::new(0, 0);
    let p2 = Point::new(1, 0);
    maze.add_neighbor(p1, p2);
    let c1 = maze.get_cell(p1).unwrap();
    let c2 = maze.get_cell(p2).unwrap();
    assert_eq!(p2, c1.neighbor(Direction::East).expect("p2 not found"));
    assert_eq!(p1, c2.neighbor(Direction::West).expect("p1 not found"));
}

#[test]
fn lib_each_row_iter() {
    let maze = Maze::new(2, 2);
    let mut eri = maze.each_row_iter();
    let r0 = eri.next().expect("row 0 missing");
    let r0c0 = maze.get_cell(Point::new(0, 0)).unwrap();
    let r0c1 = maze.get_cell(Point::new(0, 1)).unwrap();
    assert_eq!(vec![r0c0, r0c1], r0);
    let r1 = eri.next().expect("row 1 missing");
    let r1c0 = maze.get_cell(Point::new(1, 0)).unwrap();
    let r1c1 = maze.get_cell(Point::new(1, 1)).unwrap();
    assert_eq!(vec![r1c0, r1c1], r1);
    if let Some(_) = eri.next() {
        panic!("extra row");
    }
}

#[test]
fn maze_each_row_iter() {
    let maze = Maze::new(2, 2);
    let mut eri = maze.each_row_iter();
    let r0 = eri.next().expect("row 0 missing");
    let r0c0 = maze.get_cell(Point::new(0, 0)).unwrap();
    let r0c1 = maze.get_cell(Point::new(0, 1)).unwrap();
    assert_eq!(vec![r0c0, r0c1], r0);
    let r1 = eri.next().expect("row 1 missing");
    let r1c0 = maze.get_cell(Point::new(1, 0)).unwrap();
    let r1c1 = maze.get_cell(Point::new(1, 1)).unwrap();
    assert_eq!(vec![r1c0, r1c1], r1);
    if let Some(_) = eri.next() {
        panic!("extra row");
    }
}

#[test]
fn lib_each_col_iter() {
    let maze = Maze::new(2, 2);
    let mut eci = maze.each_col_iter();
    let c0 = eci.next().expect("col 0 missing");
    let r0c0 = maze.get_cell(Point::new(0, 0)).unwrap();
    let r1c0 = maze.get_cell(Point::new(1, 0)).unwrap();
    assert_eq!(vec![r0c0, r1c0], c0);
    let c1 = eci.next().expect("col 1 missing");
    let r0c1 = maze.get_cell(Point::new(0, 1)).unwrap();
    let r1c1 = maze.get_cell(Point::new(1, 1)).unwrap();
    assert_eq!(vec![r0c1, r1c1], c1);
    if let Some(_) = eci.next() {
        panic!("extra row");
    }
}

#[test]
fn maze_each_col_iter() {
    let maze = Maze::new(2, 2);
    let mut eci = maze.each_col_iter();
    let c0 = eci.next().expect("col 0 missing");
    let r0c0 = maze.get_cell(Point::new(0, 0)).unwrap();
    let r1c0 = maze.get_cell(Point::new(1, 0)).unwrap();
    assert_eq!(vec![r0c0, r1c0], c0);
    let c1 = eci.next().expect("col 1 missing");
    let r0c1 = maze.get_cell(Point::new(0, 1)).unwrap();
    let r1c1 = maze.get_cell(Point::new(1, 1)).unwrap();
    assert_eq!(vec![r0c1, r1c1], c1);
    if let Some(_) = eci.next() {
        panic!("extra row");
    }
}

#[test]
fn lib_each_cell_iter() {
    let maze = Maze::new(2, 2);
    let r0c0 = maze.get_cell(Point::new(0, 0)).unwrap();
    let r0c1 = maze.get_cell(Point::new(0, 1)).unwrap();
    let r1c0 = maze.get_cell(Point::new(1, 0)).unwrap();
    let r1c1 = maze.get_cell(Point::new(1, 1)).unwrap();
    let expected_cells = vec![r0c0, r0c1, r1c0, r1c1];
    let mut actual_cells = Vec::new();
    let mut it = maze.each_cell_iter();
    while let Some(c) = it.next() {
        actual_cells.push(c);
    }
    assert_eq!(expected_cells, actual_cells);
}

#[test]
fn maze_each_cell_iter() {
    let maze = Maze::new(2, 2);
    let r0c0 = maze.get_cell(Point::new(0, 0)).unwrap();
    let r0c1 = maze.get_cell(Point::new(0, 1)).unwrap();
    let r1c0 = maze.get_cell(Point::new(1, 0)).unwrap();
    let r1c1 = maze.get_cell(Point::new(1, 1)).unwrap();
    let expected_cells = vec![r0c0, r0c1, r1c0, r1c1];
    let mut actual_cells = Vec::new();
    let mut it = maze.each_cell_iter();
    while let Some(c) = it.next() {
        actual_cells.push(c);
    }
    assert_eq!(expected_cells, actual_cells);
}

#[test]
fn rand_cell_iter() {
    let maze = Maze::new(2, 2);
    let mut cnt = 0;
    let mut it = maze.rand_cell_iter();
    while let Some(c) = it.next() {
        assert!(c.loc.column < maze.col_count);
        assert!(c.loc.row < maze.row_count);
        cnt += 1;
    }
    assert_eq!(4, cnt);
}
