use endlessgrid::path::manhattan;
use endlessgrid::{AStarVisit, Grid};

fn wall_grid() -> Grid<bool> {
    let mut grid = Grid::default() as Grid<bool>;
    for y in 0..8 {
        for x in 0..8 {
            grid.insert((x, y), x == 4 && y != 7);
        }
    }
    grid
}

#[test]
fn astar_test() {
    let grid = wall_grid();

    assert!(!(*grid.get((4, 7)).unwrap()));

    let path = grid.astar((0, 0), (7, 0), |x| !*x.cell);

    assert!(path.is_some());
    let path = path.unwrap();
    assert_eq!(*path.last().unwrap(), (7, 0));
    assert_eq!(*path.first().unwrap(), (0, 0));
    assert!(path.iter().any(|x| *x == (4, 7)));
}

#[test]
fn astar_path_is_shortest_and_connected() {
    let grid = wall_grid();
    let path = grid.astar((0, 0), (7, 0), |x| !*x.cell).unwrap();
    // around the wall: 4 right, 7 down, 3 right, 7 up
    assert_eq!(path.len(), 22);
    for w in path.windows(2) {
        assert_eq!(manhattan(w[0], w[1]), 1);
        assert!(!*grid.get(w[1]).unwrap());
    }
}

#[test]
fn astar_same_start_and_end() {
    let grid = wall_grid();
    assert_eq!(grid.astar((2, 2), (2, 2), |x| !*x.cell), Some(vec![(2, 2)]));
    let empty = Grid::<bool>::new();
    assert_eq!(empty.astar((9, 9), (9, 9), |_| true), Some(vec![(9, 9)]));
}

#[test]
fn astar_enclosed_start_finds_nothing() {
    let mut grid = Grid::<bool>::new();
    for y in 0..5 {
        for x in 0..5 {
            grid.insert((x, y), false);
        }
    }
    for p in [(1, 2), (3, 2), (2, 1), (2, 3)] {
        grid.insert(p, true);
    }
    assert_eq!(grid.astar((2, 2), (0, 0), |x| !*x.cell), None);
}

#[test]
fn astar_unreachable_through_empty_space() {
    let mut grid = Grid::<bool>::new();
    grid.insert((0, 0), false);
    grid.insert((2, 0), false);
    assert_eq!(grid.astar((0, 0), (2, 0), |x| !*x.cell), None);
}

#[test]
fn open_neighbours_order_and_filter() {
    let mut grid = Grid::<bool>::new();
    grid.insert((0, 0), false);
    grid.insert((-1, 0), false);
    grid.insert((1, 0), true);
    grid.insert((0, 1), false);
    let visit = |v: AStarVisit<bool>| !*v.cell;
    let n = grid.open_neighbours((0, 0), &visit);
    assert_eq!(n, vec![((-1, 0), 1), ((0, 1), 1)]);
    let n = grid.open_neighbours((i32::MIN, 0), &visit);
    assert_eq!(n, vec![]);
}

#[test]
fn manhattan_values() {
    assert_eq!(manhattan((0, 0), (3, -4)), 7);
    assert_eq!(manhattan((i32::MIN, i32::MIN), (i32::MAX, i32::MAX)), 2 * (u32::MAX as i64));
}
