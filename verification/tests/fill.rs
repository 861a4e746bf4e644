use flowrs::{Cell, Colour, Endpoints, Grid, Point};

fn pt(x: usize, y: usize) -> Point {
    Point::new(x, y)
}

fn board(width: usize, height: usize, pairs: &[(Colour, (usize, usize), (usize, usize))]) -> (Grid, Endpoints) {
    let mut endpoints = Endpoints::new();
    for &(colour, a, b) in pairs {
        endpoints.insert(colour, (pt(a.0, a.1), pt(b.0, b.1)));
    }
    (Grid::new(width, height, &endpoints), endpoints)
}

fn cells(grid: &Grid) -> Vec<Cell> {
    let mut all = Vec::new();
    for y in 0..grid.height {
        for x in 0..grid.width {
            all.push(grid.get(pt(x, y)));
        }
    }
    all
}

#[test]
fn fill_alone_solves_two_rows() {
    let (mut grid, endpoints) =
        board(3, 2, &[(Colour::Red, (0, 0), (2, 0)), (Colour::Green, (0, 1), (2, 1))]);
    grid.fill_guaranteed(&endpoints);
    assert_eq!(grid.get(pt(1, 0)), Cell::Path { colour: Colour::Red });
    assert_eq!(grid.get(pt(1, 1)), Cell::Path { colour: Colour::Green });
    assert!(grid.is_solved(&endpoints));
}

#[test]
fn fill_alone_solves_a_single_row() {
    let (mut grid, endpoints) = board(5, 1, &[(Colour::Red, (0, 0), (4, 0))]);
    grid.fill_guaranteed(&endpoints);
    for x in 1..4 {
        assert_eq!(grid.get(pt(x, 0)), Cell::Path { colour: Colour::Red });
    }
    assert!(grid.is_solved(&endpoints));
}

#[test]
fn fill_leaves_crossing_corners_alone() {
    let (mut grid, endpoints) =
        board(3, 3, &[(Colour::Red, (0, 0), (2, 2)), (Colour::Green, (2, 0), (0, 2))]);
    let before = cells(&grid);
    grid.fill_guaranteed(&endpoints);
    assert_eq!(cells(&grid), before);
    assert!(!grid.is_solved(&endpoints));
}

#[test]
fn fill_needs_a_single_way_along_the_rim() {
    let (mut grid, endpoints) = board(3, 3, &[(Colour::Red, (0, 0), (2, 0))]);
    let before = cells(&grid);
    grid.fill_guaranteed(&endpoints);
    assert_eq!(cells(&grid), before);
}

#[test]
fn fill_needs_both_endpoints_on_the_rim() {
    let (mut grid, endpoints) = board(3, 3, &[(Colour::Red, (0, 0), (1, 1))]);
    let before = cells(&grid);
    grid.fill_guaranteed(&endpoints);
    assert_eq!(cells(&grid), before);
}

#[test]
fn fill_runs_until_nothing_changes() {
    // Blue has two ways along the rim until red has taken the top row.
    let (mut grid, endpoints) = board(
        3,
        3,
        &[(Colour::Red, (0, 0), (2, 0)), (Colour::Blue, (0, 1), (2, 1)), (Colour::Green, (1, 1), (1, 2))],
    );
    grid.fill_guaranteed(&endpoints);
    assert_eq!(grid.get(pt(1, 0)), Cell::Path { colour: Colour::Red });
    assert_eq!(grid.get(pt(0, 2)), Cell::Empty);
    assert_eq!(grid.get(pt(2, 2)), Cell::Empty);
}

#[test]
fn fill_twice_is_fill_once() {
    let (mut grid, endpoints) =
        board(3, 2, &[(Colour::Red, (0, 0), (2, 0)), (Colour::Green, (0, 1), (2, 1))]);
    grid.fill_guaranteed(&endpoints);
    let once = cells(&grid);
    grid.fill_guaranteed(&endpoints);
    assert_eq!(cells(&grid), once);
}

#[test]
fn fill_skips_connected_colours() {
    let (mut grid, endpoints) = board(4, 1, &[(Colour::Red, (0, 0), (1, 0))]);
    grid.fill_guaranteed(&endpoints);
    assert_eq!(grid.get(pt(2, 0)), Cell::Empty);
    assert_eq!(grid.get(pt(3, 0)), Cell::Empty);
}
